//! Whole files, built byte by byte, opened and queried.

use std::io::Write;

use bigbed::error::Error;
use bigbed::{BedLine, BigBed, ByteReader, Chrom, ChromLines, FileOffsetSize, ZoomLevel};
use bigbed::{BIGBED_SIG, BPT_SIG, CIRTREE_SIG};

// ---------------------------------------------------------------------------
// Building a file
// ---------------------------------------------------------------------------

struct Image {
    bytes: Vec<u8>,
    big_endian: bool,
}

impl Image {
    fn new(big_endian: bool) -> Image {
        Image { bytes: Vec::new(), big_endian }
    }

    fn len(&self) -> u64 {
        self.bytes.len() as u64
    }

    fn sig(&mut self, sig: [u8; 4]) {
        if self.big_endian {
            self.bytes.extend_from_slice(&sig);
        } else {
            self.bytes.extend(sig.iter().rev());
        }
    }

    fn u8(&mut self, v: u8) {
        self.bytes.push(v);
    }

    fn u16(&mut self, v: u16) {
        if self.big_endian {
            self.bytes.extend_from_slice(&v.to_be_bytes());
        } else {
            self.bytes.extend_from_slice(&v.to_le_bytes());
        }
    }

    fn u32(&mut self, v: u32) {
        if self.big_endian {
            self.bytes.extend_from_slice(&v.to_be_bytes());
        } else {
            self.bytes.extend_from_slice(&v.to_le_bytes());
        }
    }

    fn u64(&mut self, v: u64) {
        if self.big_endian {
            self.bytes.extend_from_slice(&v.to_be_bytes());
        } else {
            self.bytes.extend_from_slice(&v.to_le_bytes());
        }
    }

    fn raw(&mut self, bytes: &[u8]) {
        self.bytes.extend_from_slice(bytes);
    }

    fn pad_to(&mut self, offset: u64) {
        assert!(self.len() <= offset, "layout overlaps at {}", offset);
        while self.len() < offset {
            self.bytes.push(0);
        }
    }

    fn set_u64(&mut self, at: usize, v: u64) {
        let bytes = if self.big_endian { v.to_be_bytes() } else { v.to_le_bytes() };
        self.bytes[at..at + 8].copy_from_slice(&bytes);
    }
}

#[derive(Clone)]
struct Record {
    chrom_id: u32,
    start: u32,
    end: u32,
    rest: &'static str,
}

fn rec(chrom_id: u32, start: u32, end: u32, rest: &'static str) -> Record {
    Record { chrom_id, start, end, rest }
}

/// What a file is to hold. Offsets of zero are chosen by the builder.
struct Plan {
    big_endian: bool,
    version: u16,
    zooms: Vec<ZoomLevel>,
    field_count: u16,
    defined_field_count: u16,
    as_offset: u64,
    total_summary_offset: u64,
    uncompress_buf_size: u32,
    extension_offset: u64,
    chrom_tree_offset: u64,
    unzoomed_data_offset: u64,
    unzoomed_index_offset: u64,
    key_size: u32,
    chroms: Vec<(&'static str, u32, u32)>,
    /// Chromosomes per leaf of the chromosome tree; zero for one leaf.
    chroms_per_leaf: usize,
    /// The data blocks, each a list of records.
    blocks: Vec<Vec<Record>>,
    /// Where each block is to start; empty to let them follow one another.
    block_offsets: Vec<u64>,
    /// Blocks per leaf of the spatial index; zero for one leaf.
    blocks_per_leaf: usize,
}

fn plan(chroms: Vec<(&'static str, u32, u32)>, key_size: u32) -> Plan {
    Plan {
        big_endian: false,
        version: 4,
        zooms: Vec::new(),
        field_count: 3,
        defined_field_count: 3,
        as_offset: 0,
        total_summary_offset: 0,
        uncompress_buf_size: 0,
        extension_offset: 0,
        chrom_tree_offset: 0,
        unzoomed_data_offset: 0,
        unzoomed_index_offset: 0,
        key_size,
        chroms,
        chroms_per_leaf: 0,
        blocks: Vec::new(),
        block_offsets: Vec::new(),
        blocks_per_leaf: 0,
    }
}

fn deflate(bytes: &[u8]) -> Vec<u8> {
    let mut encoder = flate2::write::ZlibEncoder::new(Vec::new(), flate2::Compression::default());
    encoder.write_all(bytes).unwrap();
    encoder.finish().unwrap()
}

fn encode_block(records: &[Record], big_endian: bool) -> Vec<u8> {
    let mut out = Image::new(big_endian);
    for r in records {
        out.u32(r.chrom_id);
        out.u32(r.start);
        out.u32(r.end);
        out.raw(r.rest.as_bytes());
        out.u8(0);
    }
    out.bytes
}

/// The bounds of a block: from its first record to its last.
fn bounds(records: &[Record]) -> (u32, u32, u32, u32) {
    let first = &records[0];
    let mut end_chrom = first.chrom_id;
    let mut end_base = first.end;
    for r in records {
        if (r.chrom_id, r.end) > (end_chrom, end_base) {
            end_chrom = r.chrom_id;
            end_base = r.end;
        }
    }
    (first.chrom_id, first.start, end_chrom, end_base)
}

struct Built {
    bytes: Vec<u8>,
    blocks: Vec<FileOffsetSize>,
}

fn build(plan: &Plan) -> Built {
    let mut img = Image::new(plan.big_endian);
    // The fixed part; offsets are patched in once they are known.
    img.sig(BIGBED_SIG);
    img.u16(plan.version);
    img.u16(plan.zooms.len() as u16);
    img.u64(0); // chrom tree
    img.u64(0); // data
    img.u64(0); // index
    img.u16(plan.field_count);
    img.u16(plan.defined_field_count);
    img.u64(plan.as_offset);
    img.u64(plan.total_summary_offset);
    img.u32(plan.uncompress_buf_size);
    img.u64(plan.extension_offset);
    assert_eq!(img.len(), 64);
    for z in &plan.zooms {
        img.u32(z.reduction_level);
        img.u32(z.reserved);
        img.u64(z.data_offset);
        img.u64(z.index_offset);
    }
    if plan.extension_offset != 0 {
        img.pad_to(plan.extension_offset);
        img.u16(64);
        img.u16(0);
        img.u64(0);
    }

    // The chromosome tree.
    if plan.chrom_tree_offset != 0 {
        img.pad_to(plan.chrom_tree_offset);
    }
    let chrom_tree_offset = img.len();
    img.sig(BPT_SIG);
    img.u32(256);
    img.u32(plan.key_size);
    img.u32(8);
    img.u64(plan.chroms.len() as u64);
    img.u64(0);
    let key = |name: &str| {
        let mut k = name.as_bytes().to_vec();
        k.resize(plan.key_size as usize, 0);
        k
    };
    let entry = plan.key_size as u64 + 8;
    if plan.chroms_per_leaf == 0 || plan.chroms.len() <= plan.chroms_per_leaf {
        img.u8(1);
        img.u8(0);
        img.u16(plan.chroms.len() as u16);
        for (name, id, size) in &plan.chroms {
            img.raw(&key(name));
            img.u32(*id);
            img.u32(*size);
        }
    } else {
        let leaves: Vec<&[(&'static str, u32, u32)]> =
            plan.chroms.chunks(plan.chroms_per_leaf).collect();
        let root = img.len();
        let mut at = root + 4 + leaves.len() as u64 * entry;
        img.u8(0);
        img.u8(0);
        img.u16(leaves.len() as u16);
        for leaf in &leaves {
            img.raw(&key(leaf[0].0));
            img.u64(at);
            at += 4 + leaf.len() as u64 * entry;
        }
        for leaf in &leaves {
            img.u8(1);
            img.u8(0);
            img.u16(leaf.len() as u16);
            for (name, id, size) in leaf.iter() {
                img.raw(&key(name));
                img.u32(*id);
                img.u32(*size);
            }
        }
    }

    // The data blocks.
    if plan.unzoomed_data_offset != 0 {
        img.pad_to(plan.unzoomed_data_offset);
    }
    let unzoomed_data_offset = img.len();
    img.u64(plan.blocks.iter().map(|b| b.len() as u64).sum());
    let mut placed: Vec<FileOffsetSize> = Vec::new();
    for (i, block) in plan.blocks.iter().enumerate() {
        if !plan.block_offsets.is_empty() {
            img.pad_to(plan.block_offsets[i]);
        }
        let plain = encode_block(block, plan.big_endian);
        let stored = if plan.uncompress_buf_size > 0 { deflate(&plain) } else { plain };
        placed.push(FileOffsetSize { offset: img.len() as usize, size: stored.len() });
        img.raw(&stored);
    }

    // The spatial index.
    if plan.unzoomed_index_offset != 0 {
        img.pad_to(plan.unzoomed_index_offset);
    }
    let unzoomed_index_offset = img.len();
    img.sig(CIRTREE_SIG);
    img.u32(256);
    img.u64(plan.blocks.len() as u64);
    img.u32(0);
    img.u32(0);
    img.u32(u32::MAX);
    img.u32(u32::MAX);
    img.u64(0);
    img.u32(512);
    img.u32(0);
    let leaf_entry = |img: &mut Image, i: usize| {
        let (sc, sb, ec, eb) = bounds(&plan.blocks[i]);
        img.u32(sc);
        img.u32(sb);
        img.u32(ec);
        img.u32(eb);
        img.u64(placed[i].offset as u64);
        img.u64(placed[i].size as u64);
    };
    if plan.blocks_per_leaf == 0 || plan.blocks.len() <= plan.blocks_per_leaf {
        img.u8(1);
        img.u8(0);
        img.u16(plan.blocks.len() as u16);
        for i in 0..plan.blocks.len() {
            leaf_entry(&mut img, i);
        }
    } else {
        let indices: Vec<usize> = (0..plan.blocks.len()).collect();
        let leaves: Vec<&[usize]> = indices.chunks(plan.blocks_per_leaf).collect();
        let root = img.len();
        let mut at = root + 4 + leaves.len() as u64 * 24;
        img.u8(0);
        img.u8(0);
        img.u16(leaves.len() as u16);
        for leaf in &leaves {
            let (sc, sb, _, _) = bounds(&plan.blocks[leaf[0]]);
            let (_, _, ec, eb) = bounds(&plan.blocks[leaf[leaf.len() - 1]]);
            img.u32(sc);
            img.u32(sb);
            img.u32(ec);
            img.u32(eb);
            img.u64(at);
            at += 4 + leaf.len() as u64 * 32;
        }
        for leaf in &leaves {
            img.u8(1);
            img.u8(0);
            img.u16(leaf.len() as u16);
            for i in leaf.iter() {
                leaf_entry(&mut img, *i);
            }
        }
    }

    img.set_u64(8, chrom_tree_offset);
    img.set_u64(16, unzoomed_data_offset);
    img.set_u64(24, unzoomed_index_offset);
    Built { bytes: img.bytes, blocks: placed }
}

fn open(bytes: Vec<u8>) -> Result<BigBed, Error> {
    BigBed::from_file(ByteReader::new(bytes))
}

fn chrom(name: &str, id: u32, size: u32) -> Chrom {
    Chrom { name: String::from(name), id, size }
}

fn line(chrom_id: u32, start: u32, end: u32, rest: Option<&str>) -> BedLine {
    BedLine { chrom_id, start, end, rest: rest.map(String::from) }
}

// ---------------------------------------------------------------------------
// The files of the scenarios
// ---------------------------------------------------------------------------

/// One interval, `chr7 0 100`, in a file laid out like one that the usual
/// tools write for it.
fn one_plan() -> Plan {
    let mut p = plan(vec![("chr7", 0, 159345973)], 4);
    p.zooms = vec![
        ZoomLevel { reduction_level: 107485656, reserved: 0, data_offset: 6904, index_offset: 6936 },
    ];
    p.as_offset = 304;
    p.total_summary_offset = 524;
    p.extension_offset = 564;
    p.chrom_tree_offset = 628;
    p.unzoomed_data_offset = 676;
    p.unzoomed_index_offset = 700;
    p.uncompress_buf_size = 16384;
    p.blocks = vec![vec![rec(0, 0, 100, "")]];
    p
}

const LONG_CHROMS: [(&str, u32, u32); 24] = [
    ("chr1", 0, 248956422),
    ("chr10", 1, 133797422),
    ("chr11", 2, 135086622),
    ("chr12", 3, 133275309),
    ("chr13", 4, 114364328),
    ("chr14", 5, 107043718),
    ("chr15", 6, 101991189),
    ("chr16", 7, 90338345),
    ("chr17", 8, 83257441),
    ("chr18", 9, 80373285),
    ("chr19", 10, 58617616),
    ("chr2", 11, 242193529),
    ("chr20", 12, 64444167),
    ("chr21", 13, 46709983),
    ("chr22", 14, 50818468),
    ("chr3", 15, 198295559),
    ("chr4", 16, 190214555),
    ("chr5", 17, 181538259),
    ("chr6", 18, 170805979),
    ("chr7", 19, 159345973),
    ("chr8", 20, 145138636),
    ("chr9", 21, 138394717),
    ("chrX", 22, 156040895),
    ("chrY", 23, 57227415),
];

/// Twenty-four chromosomes under keys of five bytes, one data block for
/// each, the blocks compressed.
fn long_plan() -> Plan {
    let mut p = plan(LONG_CHROMS.to_vec(), 5);
    p.zooms = vec![
        ZoomLevel { reduction_level: 2440976, reserved: 0, data_offset: 86757, index_offset: 106847 },
        ZoomLevel { reduction_level: 9763904, reserved: 0, data_offset: 113067, index_offset: 119611 },
        ZoomLevel { reduction_level: 39055616, reserved: 0, data_offset: 125815, index_offset: 127568 },
        ZoomLevel { reduction_level: 156222464, reserved: 0, data_offset: 133772, index_offset: 134387 },
        ZoomLevel { reduction_level: 624889856, reserved: 0, data_offset: 140591, index_offset: 141086 },
    ];
    p.as_offset = 304;
    p.total_summary_offset = 524;
    p.extension_offset = 564;
    p.chrom_tree_offset = 628;
    p.unzoomed_data_offset = 976;
    p.unzoomed_index_offset = 80369;
    p.uncompress_buf_size = 16384;
    p.blocks = (0..24u32)
        .map(|id| {
            let base = if id == 20 { 131_000_000 } else { 200 };
            vec![
                rec(id, base, base + 1000, "first"),
                rec(id, base + 5000, base + 6000, "second\t7"),
                rec(id, base + 900_000, base + 901_000, ""),
            ]
        })
        .collect();
    p.block_offsets = (0..24u64).map(|i| 984 + i * 3300).collect();
    p
}

fn names_only(names: Vec<(&'static str, u32, u32)>, key_size: u32) -> Vec<u8> {
    build(&plan(names, key_size)).bytes
}

// ---------------------------------------------------------------------------
// Opening
// ---------------------------------------------------------------------------

#[test]
fn from_file_not_bigbed() {
    let result = open(Vec::new()).unwrap_err();
    if let Error::IOError(_) = result {
    } else {
        panic!("Expected IOError, received {:?}", result)
    }
    let result = open(b"chr7\t0\t100\n".to_vec()).unwrap_err();
    assert_eq!(result, Error::BadSig { expected: BIGBED_SIG, received: [99, 104, 114, 55] });
    let png = vec![137, 80, 78, 71, 13, 10, 26, 10, 0, 0, 0, 13, 73, 72, 68, 82];
    let result = open(png).unwrap_err();
    assert_eq!(result, Error::BadSig { expected: BIGBED_SIG, received: [137, 80, 78, 71] });
}

#[test]
fn from_file_onebed() {
    let bb = open(build(&one_plan()).bytes).unwrap();
    assert_eq!(bb.as_offset, 304);
    assert_eq!(bb.chrom_tree_offset, 628);
    assert_eq!(bb.defined_field_count, 3);
    assert_eq!(bb.extension_offset, 564);
    assert_eq!(bb.extension_size, Some(64));
    assert_eq!(bb.extra_index_count, Some(0));
    assert_eq!(bb.extra_index_list_offset, Some(0));
    assert_eq!(bb.field_count, 3);
    assert_eq!(bb.big_endian, false);
    assert_eq!(bb.total_summary_offset, 524);
    assert_eq!(bb.uncompress_buf_size, 16384);
    assert!(!bb.is_indexed());
    assert_eq!(bb.unzoomed_data_offset, 676);
    assert_eq!(bb.unzoomed_index_offset, 700);
    assert_eq!(bb.version, 4);
    assert_eq!(bb.zoom_levels, 1);
    assert_eq!(
        bb.level_list,
        vec![ZoomLevel {
            reduction_level: 107485656,
            reserved: 0,
            data_offset: 6904,
            index_offset: 6936
        }]
    )
}

#[test]
fn from_file_longbed() {
    let bb = open(build(&long_plan()).bytes).unwrap();
    assert_eq!(bb.as_offset, 304);
    assert_eq!(bb.chrom_tree_offset, 628);
    assert_eq!(bb.defined_field_count, 3);
    assert_eq!(bb.extension_offset, 564);
    assert_eq!(bb.extension_size, Some(64));
    assert_eq!(bb.extra_index_count, Some(0));
    assert_eq!(bb.extra_index_list_offset, Some(0));
    assert_eq!(bb.field_count, 3);
    assert_eq!(bb.big_endian, false);
    assert_eq!(bb.total_summary_offset, 524);
    assert_eq!(bb.uncompress_buf_size, 16384);
    assert!(!bb.is_indexed());
    assert_eq!(bb.unzoomed_data_offset, 976);
    assert_eq!(bb.unzoomed_index_offset, 80369);
    assert_eq!(bb.version, 4);
    assert_eq!(bb.zoom_levels, 5);
    assert_eq!(
        bb.level_list,
        vec![
            ZoomLevel { reduction_level: 2440976, reserved: 0, data_offset: 86757, index_offset: 106847 },
            ZoomLevel { reduction_level: 9763904, reserved: 0, data_offset: 113067, index_offset: 119611 },
            ZoomLevel { reduction_level: 39055616, reserved: 0, data_offset: 125815, index_offset: 127568 },
            ZoomLevel { reduction_level: 156222464, reserved: 0, data_offset: 133772, index_offset: 134387 },
            ZoomLevel { reduction_level: 624889856, reserved: 0, data_offset: 140591, index_offset: 141086 }
        ]
    );
}

#[test]
fn big_endian_file_opens_like_its_little_endian_twin() {
    let mut p = one_plan();
    let little = open(build(&p).bytes).unwrap();
    p.big_endian = true;
    let mut big = open(build(&p).bytes).unwrap();
    assert!(big.big_endian);
    assert!(!little.big_endian);
    assert_eq!(big.version, little.version);
    assert_eq!(big.chrom_tree_offset, little.chrom_tree_offset);
    assert_eq!(big.unzoomed_index_offset, little.unzoomed_index_offset);
    assert_eq!(big.uncompress_buf_size, little.uncompress_buf_size);
    assert_eq!(big.level_list, little.level_list);
    assert_eq!(big.chrom_list().unwrap(), vec![chrom("chr7", 0, 159345973)]);
    assert_eq!(big.query("chr7", 0, 100, 0).unwrap(), vec![line(0, 0, 100, None)]);
}

#[test]
fn signature_in_one_order_is_not_read_in_the_other() {
    // The fields of a little-endian file, read in big-endian order, would
    // give a version of 0x0400: the order is taken from the signature alone.
    let bytes = build(&one_plan()).bytes;
    assert_eq!(&bytes[0..4], &[0xEB, 0xF2, 0x89, 0x87]);
    let bb = open(bytes).unwrap();
    assert_eq!(bb.version, 4);
    // A signature that is neither the constant nor its reversal is refused.
    let mut bytes = build(&one_plan()).bytes;
    bytes.swap(0, 1);
    assert_eq!(
        open(bytes).unwrap_err(),
        Error::BadSig { expected: BIGBED_SIG, received: [0xF2, 0xEB, 0x89, 0x87] }
    );
}

#[test]
fn truncated_header_is_an_io_error() {
    let bytes = build(&one_plan()).bytes;
    for cut in [3usize, 4, 10, 63, 64, 87, 570, 630, 640, 651] {
        let result = open(bytes[..cut].to_vec());
        assert!(matches!(result, Err(Error::IOError(_))), "cut at {}: {:?}", cut, result);
    }
    assert!(open(bytes[..660].to_vec()).is_ok());
}

#[test]
fn bad_chromosome_tree_signature_is_reported() {
    let mut bytes = build(&one_plan()).bytes;
    bytes[628] = 1;
    bytes[629] = 2;
    bytes[630] = 3;
    bytes[631] = 4;
    assert_eq!(
        open(bytes).unwrap_err(),
        Error::BadSig { expected: BPT_SIG, received: [1, 2, 3, 4] }
    );
}

#[test]
fn file_without_extension_has_no_extension_fields() {
    let bb = open(names_only(vec![("chr1", 0, 10)], 4)).unwrap();
    assert_eq!(bb.extension_offset, 0);
    assert_eq!(bb.extension_size, None);
    assert_eq!(bb.extra_index_count, None);
    assert_eq!(bb.extra_index_list_offset, None);
    assert_eq!(bb.zoom_levels, 0);
    assert_eq!(bb.level_list, vec![]);
    assert_eq!(bb.uncompress_buf_size, 0);
}

// ---------------------------------------------------------------------------
// Chromosomes
// ---------------------------------------------------------------------------

#[test]
fn test_chrom_list() {
    let mut bb = open(build(&one_plan()).bytes).unwrap();
    // should only include the chromosomes mapped in the file
    assert_eq!(bb.chrom_list().unwrap(), vec![chrom("chr7", 0, 159345973)]);
    // same list should be generated a second time
    assert_eq!(bb.chrom_list().unwrap(), vec![chrom("chr7", 0, 159345973)]);
    // should include all chromosomes
    let mut bb = open(build(&long_plan()).bytes).unwrap();
    assert_eq!(
        bb.chrom_list().unwrap(),
        vec![
            chrom("chr1\0", 0, 248956422),
            chrom("chr10", 1, 133797422),
            chrom("chr11", 2, 135086622),
            chrom("chr12", 3, 133275309),
            chrom("chr13", 4, 114364328),
            chrom("chr14", 5, 107043718),
            chrom("chr15", 6, 101991189),
            chrom("chr16", 7, 90338345),
            chrom("chr17", 8, 83257441),
            chrom("chr18", 9, 80373285),
            chrom("chr19", 10, 58617616),
            chrom("chr2\0", 11, 242193529),
            chrom("chr20", 12, 64444167),
            chrom("chr21", 13, 46709983),
            chrom("chr22", 14, 50818468),
            chrom("chr3\0", 15, 198295559),
            chrom("chr4\0", 16, 190214555),
            chrom("chr5\0", 17, 181538259),
            chrom("chr6\0", 18, 170805979),
            chrom("chr7\0", 19, 159345973),
            chrom("chr8\0", 20, 145138636),
            chrom("chr9\0", 21, 138394717),
            chrom("chrX\0", 22, 156040895),
            chrom("chrY\0", 23, 57227415)
        ]
    );
    let mut bb = open(names_only(
        vec![
            ("1", 0, 30427671),
            ("2", 1, 19698289),
            ("3", 2, 23459830),
            ("4", 3, 18585056),
            ("5", 4, 26975502),
            ("C", 5, 154478),
            ("M", 6, 366924),
        ],
        1,
    ))
    .unwrap();
    assert_eq!(
        bb.chrom_list().unwrap(),
        vec![
            chrom("1", 0, 30427671),
            chrom("2", 1, 19698289),
            chrom("3", 2, 23459830),
            chrom("4", 3, 18585056),
            chrom("5", 4, 26975502),
            chrom("C", 5, 154478),
            chrom("M", 6, 366924)
        ]
    );
    let mut bb = open(names_only(
        vec![
            ("Chr1", 0, 30427671),
            ("Chr2", 1, 19698289),
            ("Chr3", 2, 23459830),
            ("Chr4", 3, 18585056),
            ("Chr5", 4, 26975502),
            ("ChrC", 5, 154478),
            ("ChrM", 6, 366924),
        ],
        4,
    ))
    .unwrap();
    assert_eq!(
        bb.chrom_list().unwrap(),
        vec![
            chrom("Chr1", 0, 30427671),
            chrom("Chr2", 1, 19698289),
            chrom("Chr3", 2, 23459830),
            chrom("Chr4", 3, 18585056),
            chrom("Chr5", 4, 26975502),
            chrom("ChrC", 5, 154478),
            chrom("ChrM", 6, 366924)
        ]
    );
    // names of very different lengths under wide keys
    let mut bb = open(names_only(
        vec![
            ("chr1", 0, 195471971),
            ("chr10", 1, 130694993),
            ("chr1_GL456210_random", 11, 169725),
            ("chr2", 16, 182113224),
            ("chrM", 36, 16299),
            ("chrUn_GL456239", 37, 40056),
            ("chrY_JH584303_random", 65, 158099),
        ],
        20,
    ))
    .unwrap();
    assert_eq!(
        bb.chrom_list().unwrap(),
        vec![
            chrom("chr1\0\0\0\0\0\0\0\0\0\0\0\0\0\0\0\0", 0, 195471971),
            chrom("chr10\0\0\0\0\0\0\0\0\0\0\0\0\0\0\0", 1, 130694993),
            chrom("chr1_GL456210_random", 11, 169725),
            chrom("chr2\0\0\0\0\0\0\0\0\0\0\0\0\0\0\0\0", 16, 182113224),
            chrom("chrM\0\0\0\0\0\0\0\0\0\0\0\0\0\0\0\0", 36, 16299),
            chrom("chrUn_GL456239\0\0\0\0\0\0", 37, 40056),
            chrom("chrY_JH584303_random", 65, 158099)
        ]
    );
}

#[test]
fn test_find_chrom_one() {
    let mut bb = open(build(&one_plan()).bytes).unwrap();
    assert_eq!(bb.find_chrom("chr1").unwrap(), None);
    assert_eq!(bb.find_chrom("chr7").unwrap(), Some(chrom("chr7", 0, 159345973)));
    // does it work again?
    assert_eq!(bb.find_chrom("chr7").unwrap(), Some(chrom("chr7", 0, 159345973)));
    assert_eq!(bb.find_chrom("chr").unwrap(), None);
    // key too long
    assert_eq!(bb.find_chrom("chr79"), Err(Error::BadKey(String::from("chr79"), 4)));
    // should be case-sensitive
    assert_eq!(bb.find_chrom("cHr7").unwrap(), None);
    // near-matches don't count
    assert_eq!(bb.find_chrom("xhr7").unwrap(), None);
}

#[test]
fn test_find_chrom_long() {
    let mut bb = open(build(&long_plan()).bytes).unwrap();
    assert_eq!(bb.find_chrom("chr2\0").unwrap(), Some(chrom("chr2\0", 11, 242193529)));
    // should work without padding
    assert_eq!(bb.find_chrom("chr2").unwrap(), Some(chrom("chr2\0", 11, 242193529)));
    // cannot omit the 'chr'
    assert_eq!(bb.find_chrom("2").unwrap(), None);
    // still should have key too long errors
    assert_eq!(bb.find_chrom("chr2xx"), Err(Error::BadKey(String::from("chr2xx"), 5)));
}

#[test]
fn long_name_is_a_bad_key_even_where_its_prefix_is_a_key() {
    let mut bb = open(build(&long_plan()).bytes).unwrap();
    assert_eq!(bb.find_chrom("chr10").unwrap(), Some(chrom("chr10", 1, 133797422)));
    assert_eq!(bb.find_chrom("chr100"), Err(Error::BadKey(String::from("chr100"), 5)));
    assert_eq!(bb.find_chrom("chr10\0"), Err(Error::BadKey(String::from("chr10\0"), 5)));
    // the length that counts is the length in bytes
    assert_eq!(bb.find_chrom("chrÿÿ"), Err(Error::BadKey(String::from("chrÿÿ"), 5)));
    assert_eq!(bb.find_chrom("chrÿ").unwrap(), None);
}

#[test]
fn chromosome_tree_of_two_levels_is_walked_and_searched() {
    let mut p = plan(LONG_CHROMS.to_vec(), 5);
    p.chroms_per_leaf = 5;
    let mut bb = open(build(&p).bytes).unwrap();
    // Leaves come off the work list last one first; entries keep their order
    // within a leaf.
    let mut expected: Vec<Chrom> = Vec::new();
    for leaf in LONG_CHROMS.chunks(5).rev() {
        for (name, id, size) in leaf {
            let mut padded = String::from(*name);
            while padded.len() < 5 {
                padded.push('\0');
            }
            expected.push(Chrom { name: padded, id: *id, size: *size });
        }
    }
    let listed = bb.chrom_list().unwrap();
    assert_eq!(listed.len(), 24);
    assert_eq!(listed, expected);
    // every chromosome exactly once
    for (name, id, _) in LONG_CHROMS.iter() {
        assert_eq!(listed.iter().filter(|c| c.id == *id).count(), 1, "{}", name);
    }
    // A key in any leaf but the last is found by going down one path.
    assert_eq!(bb.find_chrom("chr1").unwrap(), Some(chrom("chr1\0", 0, 248956422)));
    assert_eq!(bb.find_chrom("chr13").unwrap(), Some(chrom("chr13", 4, 114364328)));
    assert_eq!(bb.find_chrom("chr14").unwrap(), Some(chrom("chr14", 5, 107043718)));
    assert_eq!(bb.find_chrom("chr7").unwrap(), Some(chrom("chr7\0", 19, 159345973)));
    assert_eq!(bb.find_chrom("chr0").unwrap(), None);
    assert_eq!(bb.find_chrom("chr1a").unwrap(), None);
    // No separator key is greater than a key of the last leaf, so no child
    // is gone down to for it.
    assert_eq!(bb.find_chrom("chr8").unwrap(), None);
    assert_eq!(bb.find_chrom("chrY").unwrap(), None);
}

#[test]
fn tree_that_points_back_at_itself_is_given_up() {
    // An inner root whose only child is the root.
    let mut p = plan(LONG_CHROMS.to_vec(), 5);
    p.chroms_per_leaf = 12;
    let mut bytes = build(&p).bytes;
    let bb = open(bytes.clone()).unwrap();
    let root = bb.chrom_tree_offset as usize + 32;
    let first_child = root + 4 + 5;
    bytes[first_child..first_child + 8].copy_from_slice(&(root as u64).to_le_bytes());
    let second_child = first_child + 13;
    bytes[second_child..second_child + 8].copy_from_slice(&(root as u64).to_le_bytes());
    let mut bb = open(bytes).unwrap();
    assert_eq!(
        bb.chrom_list(),
        Err(Error::Misc("index tree reaches a block more than once"))
    );
    assert_eq!(
        bb.find_chrom("chr1"),
        Err(Error::Misc("index tree reaches a block more than once"))
    );
}

#[test]
fn values_of_another_width_are_refused() {
    let mut bytes = names_only(vec![("chr1", 0, 10)], 4);
    let tree = u64::from_le_bytes(bytes[8..16].try_into().unwrap()) as usize;
    bytes[tree + 12] = 4;
    let mut bb = open(bytes).unwrap();
    assert_eq!(bb.chrom_list(), Err(Error::Misc("Expected chromosome data to be 8 bytes")));
    assert_eq!(bb.find_chrom("chr1"), Err(Error::Misc("Expected chromosome data to be 8 bytes")));
    // the width of the name is judged first
    assert_eq!(bb.find_chrom("chr1x"), Err(Error::BadKey(String::from("chr1x"), 4)));
}

#[test]
fn name_that_is_not_utf8_is_refused_when_listed() {
    let mut bytes = names_only(vec![("chr1", 0, 10), ("chr2", 1, 20)], 4);
    let tree = u64::from_le_bytes(bytes[8..16].try_into().unwrap()) as usize;
    let second_key = tree + 32 + 4 + 12;
    bytes[second_key + 3] = 0xFF;
    let mut bb = open(bytes).unwrap();
    assert_eq!(bb.chrom_list(), Err(Error::Misc("chromosome name is not valid UTF-8")));
    // a lookup compares bytes and never reads that key as text
    assert_eq!(bb.find_chrom("chr1").unwrap(), Some(chrom("chr1", 0, 10)));
    assert_eq!(bb.find_chrom("chr2").unwrap(), None);
}

#[test]
fn truncated_leaf_is_an_io_error() {
    let bytes = names_only(vec![("chr1", 0, 10), ("chr2", 1, 20)], 4);
    let tree = u64::from_le_bytes(bytes[8..16].try_into().unwrap()) as usize;
    let cut = tree + 32 + 4 + 12 + 6;
    let mut bb = open(bytes[..cut].to_vec()).unwrap();
    assert!(matches!(bb.chrom_list(), Err(Error::IOError(_))));
    assert!(matches!(bb.find_chrom("chr1"), Err(Error::IOError(_))));
}

// ---------------------------------------------------------------------------
// The spatial index
// ---------------------------------------------------------------------------

#[test]
fn test_overlapping_blocks() {
    let built = build(&long_plan());
    let mut bb = open(built.bytes).unwrap();
    assert!(!bb.is_indexed());
    let first = built.blocks[0];
    assert_eq!(first.offset, 984);
    assert_eq!(bb.overlapping_blocks(0, 100, 1000000), Ok(vec![first]));
    assert!(bb.is_indexed());
    // swapped start and stop positions should produce no blocks
    assert_eq!(bb.overlapping_blocks(0, 100000, 10), Ok(vec![]));
    // trying a more narrow range
    let block_20 = built.blocks[20];
    assert_eq!(block_20.offset, 984 + 20 * 3300);
    assert_eq!(bb.overlapping_blocks(20, 131366255, 132257727), Ok(vec![block_20]));
    // bad chromosome should just produce no blocks
    assert_eq!(bb.overlapping_blocks(42, 100000, 10), Ok(vec![]));
}

fn many_blocks_plan() -> Plan {
    let mut p = plan(vec![("chr1", 0, 1_000_000), ("chr2", 1, 1_000_000)], 4);
    // Ten blocks on chr1, each of 100 records of 10 bases, and two on chr2.
    let mut blocks = Vec::new();
    for b in 0..10u32 {
        blocks.push((0..100u32).map(|i| rec(0, b * 1000 + i * 10, b * 1000 + i * 10 + 10, "x")).collect());
    }
    for b in 0..2u32 {
        blocks.push((0..100u32).map(|i| rec(1, b * 1000 + i * 10, b * 1000 + i * 10 + 10, "y")).collect());
    }
    p.blocks = blocks;
    p.blocks_per_leaf = 3;
    p
}

#[test]
fn narrow_range_gives_fewer_blocks_than_the_whole_chromosome() {
    let built = build(&many_blocks_plan());
    let mut bb = open(built.bytes).unwrap();
    let whole = bb.overlapping_blocks(0, 0, 1_000_000).unwrap();
    let narrow = bb.overlapping_blocks(0, 2500, 4500).unwrap();
    assert_eq!(whole.len(), 10);
    assert_eq!(narrow.len(), 3);
    assert!(narrow.len() < whole.len());
    for block in &narrow {
        assert!(whole.contains(block));
    }
    let mut expected: Vec<FileOffsetSize> = built.blocks[2..5].to_vec();
    let mut found = narrow.clone();
    expected.sort_by_key(|b| b.offset);
    found.sort_by_key(|b| b.offset);
    assert_eq!(found, expected);
    // Leaves come off the work list last one first.
    let mut order: Vec<FileOffsetSize> = Vec::new();
    order.push(built.blocks[9]);
    order.extend_from_slice(&built.blocks[6..9]);
    order.extend_from_slice(&built.blocks[3..6]);
    order.extend_from_slice(&built.blocks[0..3]);
    assert_eq!(whole, order);
}

#[test]
fn every_block_with_a_record_in_the_range_is_returned() {
    let p = many_blocks_plan();
    let built = build(&p);
    let mut bb = open(built.bytes).unwrap();
    for (start, end) in [(0u32, 1u32), (995, 1005), (2999, 3001), (9990, 20000), (5000, 5000), (0, 10000)] {
        let found = bb.overlapping_blocks(0, start, end).unwrap();
        for (i, block) in p.blocks.iter().enumerate() {
            let holds = block.iter().any(|r| r.chrom_id == 0 && r.start < end && r.end > start);
            if holds {
                assert!(found.contains(&built.blocks[i]), "block {} for {}..{}", i, start, end);
            }
        }
    }
    assert_eq!(bb.overlapping_blocks(0, 20000, 30000).unwrap(), vec![]);
    assert_eq!(bb.overlapping_blocks(7, 0, 10000).unwrap(), vec![]);
}

#[test]
fn bad_index_signature_is_reported_when_the_index_is_first_needed() {
    let mut bytes = build(&one_plan()).bytes;
    bytes[700] = 9;
    let mut bb = open(bytes).unwrap();
    assert_eq!(bb.chrom_list().unwrap(), vec![chrom("chr7", 0, 159345973)]);
    assert_eq!(
        bb.attach_unzoomed_cir(),
        Err(Error::BadSig { expected: CIRTREE_SIG, received: [9, 0xAC, 0x68, 0x24] })
    );
    assert!(!bb.is_indexed());
    assert_eq!(
        bb.overlapping_blocks(0, 0, 100),
        Err(Error::BadSig { expected: CIRTREE_SIG, received: [9, 0xAC, 0x68, 0x24] })
    );
    assert_eq!(
        bb.query("chr7", 0, 100, 0),
        Err(Error::BadSig { expected: CIRTREE_SIG, received: [9, 0xAC, 0x68, 0x24] })
    );
    // the chromosome is resolved first
    assert_eq!(bb.query("chr1", 0, 100, 0), Err(Error::BadChrom(String::from("chr1"))));
}

#[test]
fn attaching_the_index_twice_reads_it_once() {
    let mut bb = open(build(&one_plan()).bytes).unwrap();
    assert_eq!(bb.attach_unzoomed_cir(), Ok(()));
    assert!(bb.is_indexed());
    // Moving the offset away shows that the index is not read again.
    bb.unzoomed_index_offset = 0;
    assert_eq!(bb.attach_unzoomed_cir(), Ok(()));
    assert_eq!(bb.overlapping_blocks(0, 0, 100).unwrap().len(), 1);
}

// ---------------------------------------------------------------------------
// Queries
// ---------------------------------------------------------------------------

#[test]
fn single_feature_file_end_to_end() {
    let mut bb = open(build(&one_plan()).bytes).unwrap();
    assert_eq!(bb.chrom_list().unwrap(), vec![chrom("chr7", 0, 159345973)]);
    assert_eq!(bb.query("chr7", 0, 100, 0).unwrap(), vec![line(0, 0, 100, None)]);
    assert_eq!(bb.query("chr1", 0, 100, 0), Err(Error::BadChrom(String::from("chr1"))));
    assert_eq!(bb.query("chr7", 100, 200, 0).unwrap(), vec![]);
    assert_eq!(bb.query("chr7", 99, 200, 0).unwrap(), vec![line(0, 0, 100, None)]);
}

#[test]
fn compressed_blocks_are_inflated_before_decoding() {
    let built = build(&long_plan());
    // the stored block is not the records themselves
    let plain = encode_block(&long_plan().blocks[11], false);
    let stored = &built.bytes[built.blocks[11].offset..][..built.blocks[11].size];
    assert_ne!(stored, &plain[..]);
    let mut bb = open(built.bytes).unwrap();
    assert_eq!(
        bb.query("chr2", 0, 1_000_000, 0).unwrap(),
        vec![
            line(11, 200, 1200, Some("first")),
            line(11, 5200, 6200, Some("second\t7")),
            line(11, 900_200, 901_200, None),
        ]
    );
    assert_eq!(bb.query("chr2", 5000, 5300, 0).unwrap(), vec![line(11, 5200, 6200, Some("second\t7"))]);
    // No more of the buffer is decoded than the block inflated to: what lies
    // behind would read as empty records at position zero of chromosome zero.
    assert_eq!(
        bb.query("chr1", 0, 1_000_000, 0).unwrap(),
        vec![
            line(0, 200, 1200, Some("first")),
            line(0, 5200, 6200, Some("second\t7")),
            line(0, 900_200, 901_200, None),
        ]
    );
    assert_eq!(bb.query("chr2", 0, 1_000_000, 2).unwrap().len(), 2);
    assert_eq!(bb.query("chr2", 0, 1_000_000, 1).unwrap(), vec![line(11, 200, 1200, Some("first"))]);
}

#[test]
fn query_answers_in_the_order_of_the_blocks_in_the_file() {
    let mut bb = open(build(&many_blocks_plan()).bytes).unwrap();
    let lines = bb.query("chr1", 0, 1_000_000, 0).unwrap();
    assert_eq!(lines.len(), 1000);
    for (i, l) in lines.iter().enumerate() {
        assert_eq!(l.start, i as u32 * 10);
        assert_eq!(l.end, i as u32 * 10 + 10);
        assert_eq!(l.chrom_id, 0);
        assert_eq!(l.rest, Some(String::from("x")));
    }
    let some = bb.query("chr1", 2995, 3015, 0).unwrap();
    assert_eq!(
        some,
        vec![line(0, 2990, 3000, Some("x")), line(0, 3000, 3010, Some("x")), line(0, 3010, 3020, Some("x"))]
    );
    assert_eq!(bb.query("chr1", 0, 1_000_000, 250).unwrap().len(), 250);
    assert_eq!(bb.query("chr1", 0, 1_000_000, 250).unwrap()[249], line(0, 2490, 2500, Some("x")));
    assert_eq!(bb.query("chr2", 0, 1_000_000, 0).unwrap().len(), 200);
}

#[test]
fn scattered_and_adjacent_blocks_decode_alike() {
    let adjacent = many_blocks_plan();
    let mut scattered = many_blocks_plan();
    let first = build(&adjacent).blocks[0].offset as u64;
    scattered.block_offsets = (0..12u64).map(|i| first + i * 5000).collect();
    let mut compressed = many_blocks_plan();
    compressed.uncompress_buf_size = 4096;
    let mut a = open(build(&adjacent).bytes).unwrap();
    let mut s = open(build(&scattered).bytes).unwrap();
    let mut c = open(build(&compressed).bytes).unwrap();
    for (start, end, max) in [(0u32, 1_000_000u32, 0u32), (2500, 4500, 0), (0, 1_000_000, 333), (990, 1010, 1)] {
        let expected = a.query("chr1", start, end, max).unwrap();
        assert_eq!(s.query("chr1", start, end, max).unwrap(), expected);
        assert_eq!(c.query("chr1", start, end, max).unwrap(), expected);
    }
}

#[test]
fn empty_record_on_a_boundary_of_the_range_is_kept() {
    let mut p = plan(vec![("chr1", 0, 1000)], 4);
    p.blocks = vec![vec![
        rec(0, 10, 20, "a"),
        rec(0, 50, 50, "insertion"),
        rec(0, 50, 60, "b"),
        rec(0, 80, 80, "other"),
    ]];
    let mut bb = open(build(&p).bytes).unwrap();
    // at the start of the range
    assert_eq!(
        bb.query("chr1", 50, 55, 0).unwrap(),
        vec![line(0, 50, 50, Some("insertion")), line(0, 50, 60, Some("b"))]
    );
    // at the end of the range
    assert_eq!(
        bb.query("chr1", 15, 50, 0).unwrap(),
        vec![line(0, 10, 20, Some("a")), line(0, 50, 50, Some("insertion"))]
    );
    // inside the range
    assert_eq!(
        bb.query("chr1", 40, 70, 0).unwrap(),
        vec![line(0, 50, 50, Some("insertion")), line(0, 50, 60, Some("b"))]
    );
    // away from the range
    assert_eq!(bb.query("chr1", 51, 79, 0).unwrap(), vec![line(0, 50, 60, Some("b"))]);
    assert_eq!(bb.query("chr1", 80, 80, 0).unwrap(), vec![line(0, 80, 80, Some("other"))]);
}

#[test]
fn name_is_tried_again_without_its_first_three_characters() {
    let mut p = plan(vec![("1", 0, 1000), ("2", 1, 1000)], 5);
    p.blocks = vec![vec![rec(0, 10, 20, "")], vec![rec(1, 30, 40, "")]];
    let mut bb = open(build(&p).bytes).unwrap();
    assert_eq!(bb.query("2", 0, 100, 0).unwrap(), vec![line(1, 30, 40, None)]);
    assert_eq!(bb.query("chr2", 0, 100, 0).unwrap(), vec![line(1, 30, 40, None)]);
    assert_eq!(bb.query("xyz1", 0, 100, 0).unwrap(), vec![line(0, 10, 20, None)]);
    assert_eq!(bb.query("chr3", 0, 100, 0), Err(Error::BadChrom(String::from("chr3"))));
    assert_eq!(bb.query("ch", 0, 100, 0), Err(Error::BadChrom(String::from("ch"))));
    assert_eq!(bb.query("", 0, 100, 0), Err(Error::BadChrom(String::from(""))));
    // a name too long for the keys is refused before any second try
    assert_eq!(bb.query("chrom2", 0, 100, 0), Err(Error::BadKey(String::from("chrom2"), 5)));
}

#[test]
fn query_at_the_top_of_the_range_of_positions() {
    let mut p = plan(vec![("chr1", 0, u32::MAX)], 4);
    p.blocks = vec![vec![rec(0, u32::MAX - 10, u32::MAX, "top")]];
    let mut bb = open(build(&p).bytes).unwrap();
    assert_eq!(
        bb.query("chr1", 0, u32::MAX, 0).unwrap(),
        vec![line(0, u32::MAX - 10, u32::MAX, Some("top"))]
    );
}

#[test]
fn block_beyond_the_end_of_the_file_is_an_io_error() {
    let built = build(&many_blocks_plan());
    let cut = built.blocks[11].offset + 5;
    // Only the last data block is cut; the index is moved in front of it.
    let mut p = many_blocks_plan();
    p.blocks_per_leaf = 0;
    let built = build(&p);
    let mut bytes = built.bytes.clone();
    // make the last block claim more bytes than the file has
    let index = u64::from_le_bytes(bytes[24..32].try_into().unwrap()) as usize;
    let last_entry = index + 48 + 4 + 11 * 32;
    let huge = (bytes.len() as u64).to_le_bytes();
    bytes[last_entry + 24..last_entry + 32].copy_from_slice(&huge);
    let mut bb = open(bytes).unwrap();
    assert!(matches!(bb.query("chr2", 0, 1_000_000, 0), Err(Error::IOError(_))));
    assert_eq!(bb.query("chr1", 0, 1_000_000, 0).unwrap().len(), 1000);
    assert!(cut > 0);
}

#[test]
fn corrupt_compressed_block_is_a_decompression_error() {
    let built = build(&long_plan());
    let mut bytes = built.bytes.clone();
    let b = built.blocks[3];
    for i in 0..b.size {
        bytes[b.offset + i] = 0xAA;
    }
    let mut bb = open(bytes).unwrap();
    assert_eq!(bb.query("chr12", 0, 1_000_000, 0), Err(Error::DecompressError));
    // other blocks are untouched
    assert_eq!(bb.query("chr11", 0, 1_000_000, 0).unwrap().len(), 3);
}

#[test]
fn block_larger_than_the_declared_buffer_is_refused() {
    let mut p = many_blocks_plan();
    p.uncompress_buf_size = 64;
    let mut bb = open(build(&p).bytes).unwrap();
    assert_eq!(bb.query("chr1", 0, 1_000_000, 0), Err(Error::DecompressError));
}

#[test]
fn record_cut_short_is_an_io_error() {
    let mut p = plan(vec![("chr1", 0, 1000)], 4);
    p.blocks = vec![vec![rec(0, 10, 20, "a"), rec(0, 30, 40, "b")]];
    let built = build(&p);
    let mut bytes = built.bytes.clone();
    // shorten the block by asking the index for fewer bytes
    let index = u64::from_le_bytes(bytes[24..32].try_into().unwrap()) as usize;
    let entry = index + 48 + 4;
    let shorter = (built.blocks[0].size as u64 - 6).to_le_bytes();
    bytes[entry + 24..entry + 32].copy_from_slice(&shorter);
    let mut bb = open(bytes).unwrap();
    assert!(matches!(bb.query("chr1", 0, 1000, 0), Err(Error::IOError(_))));
    // with a limit of one the second record is never looked at
    assert_eq!(bb.query("chr1", 0, 1000, 1).unwrap(), vec![line(0, 10, 20, Some("a"))]);
}

#[test]
fn text_without_its_zero_byte_runs_to_the_end_of_the_block() {
    let mut p = plan(vec![("chr1", 0, 1000)], 4);
    p.blocks = vec![vec![rec(0, 10, 20, "a"), rec(0, 30, 40, "tail")]];
    let built = build(&p);
    let mut bytes = built.bytes.clone();
    let index = u64::from_le_bytes(bytes[24..32].try_into().unwrap()) as usize;
    let entry = index + 48 + 4;
    let shorter = (built.blocks[0].size as u64 - 1).to_le_bytes();
    bytes[entry + 24..entry + 32].copy_from_slice(&shorter);
    let mut bb = open(bytes).unwrap();
    assert_eq!(
        bb.query("chr1", 0, 1000, 0).unwrap(),
        vec![line(0, 10, 20, Some("a")), line(0, 30, 40, Some("tail"))]
    );
}

#[test]
fn text_that_is_not_utf8_is_refused_only_in_a_wanted_record() {
    let mut p = plan(vec![("chr1", 0, 1000)], 4);
    p.blocks = vec![vec![rec(0, 10, 20, "a"), rec(0, 30, 40, "b")]];
    let built = build(&p);
    let mut bytes = built.bytes.clone();
    bytes[built.blocks[0].offset + 12] = 0xFF;
    let mut bb = open(bytes).unwrap();
    assert_eq!(bb.query("chr1", 0, 1000, 0), Err(Error::Misc("record text is not valid UTF-8")));
    assert_eq!(bb.query("chr1", 25, 1000, 0).unwrap(), vec![line(0, 30, 40, Some("b"))]);
}

// ---------------------------------------------------------------------------
// The whole file as text
// ---------------------------------------------------------------------------

fn group(name: &str, lines: Vec<BedLine>) -> ChromLines {
    ChromLines { name: String::from(name), lines }
}

#[test]
fn to_bed_lists_every_chromosome_under_its_unpadded_name() {
    let mut p = plan(vec![("chr1", 0, 1000), ("chr10", 1, 2000), ("chr2", 2, 3000)], 5);
    p.blocks = vec![
        vec![rec(0, 10, 20, "a"), rec(0, 900, 1100, "edge")],
        vec![rec(1, 30, 40, "")],
        vec![rec(2, 50, 60, "c"), rec(2, 70, 80, "d")],
    ];
    let mut bb = open(build(&p).bytes).unwrap();
    assert_eq!(
        bb.to_bed(None, None, None, None).unwrap(),
        vec![
            group("chr1", vec![line(0, 10, 20, Some("a")), line(0, 900, 1100, Some("edge"))]),
            group("chr10", vec![line(1, 30, 40, None)]),
            group("chr2", vec![line(2, 50, 60, Some("c")), line(2, 70, 80, Some("d"))]),
        ]
    );
    assert_eq!(
        bb.to_bed(Some("chr2"), None, None, None).unwrap(),
        vec![group("chr2", vec![line(2, 50, 60, Some("c")), line(2, 70, 80, Some("d"))])]
    );
    assert_eq!(bb.to_bed(Some("chr3"), None, None, None).unwrap(), vec![]);
    // the limit holds for the file as a whole
    assert_eq!(
        bb.to_bed(None, None, None, Some(1)).unwrap(),
        vec![group("chr1", vec![line(0, 10, 20, Some("a"))])]
    );
    assert_eq!(
        bb.to_bed(None, None, None, Some(3)).unwrap(),
        vec![
            group("chr1", vec![line(0, 10, 20, Some("a")), line(0, 900, 1100, Some("edge"))]),
            group("chr10", vec![line(1, 30, 40, None)]),
        ]
    );
    assert_eq!(
        bb.to_bed(None, None, None, Some(4)).unwrap(),
        vec![
            group("chr1", vec![line(0, 10, 20, Some("a")), line(0, 900, 1100, Some("edge"))]),
            group("chr10", vec![line(1, 30, 40, None)]),
            group("chr2", vec![line(2, 50, 60, Some("c"))]),
        ]
    );
    assert_eq!(bb.to_bed(None, None, None, Some(100)).unwrap().len(), 3);
    assert_eq!(
        bb.to_bed(Some("chr2"), None, None, Some(1)).unwrap(),
        vec![group("chr2", vec![line(2, 50, 60, Some("c"))])]
    );
    assert_eq!(bb.to_bed(None, None, None, Some(0)).unwrap(), vec![]);
    assert_eq!(
        bb.to_bed(None, Some(35), Some(75), None).unwrap(),
        vec![
            group("chr1", vec![]),
            group("chr10", vec![line(1, 30, 40, None)]),
            group("chr2", vec![line(2, 50, 60, Some("c")), line(2, 70, 80, Some("d"))]),
        ]
    );
    // without an end the chromosome's length is the end
    assert_eq!(
        bb.to_bed(Some("chr1"), Some(950), None, None).unwrap(),
        vec![group("chr1", vec![line(0, 900, 1100, Some("edge"))])]
    );
}

#[test]
fn to_bed_hands_on_the_failure_of_a_query() {
    let built = build(&long_plan());
    let mut bytes = built.bytes.clone();
    let b = built.blocks[1];
    for i in 0..b.size {
        bytes[b.offset + i] = 0x55;
    }
    let mut bb = open(bytes).unwrap();
    assert_eq!(bb.to_bed(None, None, None, None), Err(Error::DecompressError));
    assert_eq!(bb.to_bed(Some("chr1"), None, None, None).unwrap().len(), 1);
}
