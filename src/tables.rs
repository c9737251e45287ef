//! Magic-bitboard lookup tables: for each square a mask of the blockers that
//! matter, a multiplier and a shift hash every blocker subset of the mask to
//! a slot of a flat table holding what the reference generator gives for it.
use vstd::prelude::*;
use crate::bitboard::{Bitboard, bit, squares, lemma_and};
use crate::geometry::{orth_mask, diag_mask, buddy_ring, king_ring, orth_reach, diag_reach, stradler_reach,
    retractor_reach, orthogonal_block_mask, diagonal_block_mask, buddy_mask, king_mask,
    generate_orthogonal_moves, generate_diagonal_moves, generate_stradler_captures,
    generate_retractor_captures, lemma_reach_relevant};

verus! {

/// Number of squares of `x` below square `n`.
pub open spec fn count_below(x: u64, n: int) -> int
    decreases n,
{
    if n <= 0 { 0 } else { count_below(x, n - 1) + if bit(x, n - 1) { 1int } else { 0int } }
}

/// Number of squares of `x`.
pub open spec fn popcount(x: u64) -> int {
    count_below(x, 64)
}

/// Number of squares of `x`.
pub fn count_squares(x: u64) -> (r: u32)
    ensures
        r == popcount(x),
        r <= 64,
{
    let mut c: u32 = 0;
    let mut i: u32 = 0;
    while i < 64
        invariant
            i <= 64,
            c == count_below(x, i as int),
            c <= i,
        decreases 64 - i,
    {
        if (x >> i as u64) & 1 == 1 {
            c = c + 1;
        }
        i = i + 1;
    }
    c
}

/// Slot of `blockers` in a square's part of a table: the product with the
/// magic multiplier, wrapping, shifted right by `throwaway`.
pub fn magic_index(blockers: Bitboard, magic: u64, throwaway: u8) -> (r: usize)
    requires
        throwaway < 64,
    ensures
        r == (blockers.0.wrapping_mul(magic) >> throwaway as u64) as usize,
        48 <= throwaway ==> r < (1u64 << (64 - throwaway) as u64),
{
    let hash = blockers.0.wrapping_mul(magic);
    let t = throwaway as u64;
    let index = hash >> t;
    assert(48 <= t < 64 ==> (hash >> t) < (1u64 << (64 - t) as u64)) by (bit_vector);
    index as usize
}

/// The magic multiplier of square `s` for orthogonal sliders.
pub open spec fn orth_magic_of(s: int) -> u64 {
    if s == 0 { 0x580002011804000 } else if s == 1 { 0x2840004410002008 } else
    if s == 2 { 0x2100104100200109 } else if s == 3 { 0x80080180841000 } else
    if s == 4 { 0x200041002000820 } else if s == 5 { 0x200840010120028 } else
    if s == 6 { 0x680020007000180 } else if s == 7 { 0x8600005103802604 } else
    if s == 8 { 0x40800040003189 } else if s == 9 { 0x8400400050082000 } else
    if s == 10 { 0x2000801000822005 } else if s == 11 { 0x1001000821001004 } else
    if s == 12 { 0x822002090048a00 } else if s == 13 { 0x1801200800c01 } else
    if s == 14 { 0xa0b000100644200 } else if s == 15 { 0x8080801100004480 } else
    if s == 16 { 0x1880004000200440 } else if s == 17 { 0x810004004200440 } else
    if s == 18 { 0x12020041801023 } else if s == 19 { 0x3120028402200 } else
    if s == 20 { 0x808004004004200 } else if s == 21 { 0x14008002008004 } else
    if s == 22 { 0x402040010180201 } else if s == 23 { 0xc2010a0002428401 } else
    if s == 24 { 0x1c00280012181 } else if s == 25 { 0x810004840002000 } else
    if s == 26 { 0x1200880100080 } else if s == 27 { 0x101480480100081 } else
    if s == 28 { 0x1041480100111500 } else if s == 29 { 0xa000040080020080 } else
    if s == 30 { 0x284181400125045 } else if s == 31 { 0x3009285200008421 } else
    if s == 32 { 0x8002204001800489 } else if s == 33 { 0x4200184804000 } else
    if s == 34 { 0x202410251002000 } else if s == 35 { 0xa784811000800800 } else
    if s == 36 { 0x801c01800800 } else if s == 37 { 0x2500800400800200 } else
    if s == 38 { 0xc010085074000302 } else if s == 39 { 0x50005082002104 } else
    if s == 40 { 0x402400080028020 } else if s == 41 { 0x1004c020014002 } else
    if s == 42 { 0x200041050010 } else if s == 43 { 0x610008100080800 } else
    if s == 44 { 0x403c008040080800 } else if s == 45 { 0x1800402010080104 } else
    if s == 46 { 0x1000812862440010 } else if s == 47 { 0x100058059120014 } else
    if s == 48 { 0x2480014004208480 } else if s == 49 { 0x80a01080400580 } else
    if s == 50 { 0xa04100102000c100 } else if s == 51 { 0x3880812802100280 } else
    if s == 52 { 0x28000900100500 } else if s == 53 { 0x285800400020180 } else
    if s == 54 { 0x42194a08104400 } else if s == 55 { 0x13000040822100 } else
    if s == 56 { 0x80110042008422 } else if s == 57 { 0x89201a1008442 } else
    if s == 58 { 0x8820040101822 } else if s == 59 { 0x800082420300101 } else
    if s == 60 { 0x2052001810200402 } else if s == 61 { 0x4100080a8c0001 } else
    if s == 62 { 0x800208048a01100c } else { 0x240c80410a }
}

/// Magic multiplier of square `s` for orthogonal sliders.
pub fn orth_magic(s: usize) -> (r: u64)
    ensures
        s < 64 ==> r == orth_magic_of(s as int),
{
    match s {
        0 => 0x580002011804000,
        1 => 0x2840004410002008,
        2 => 0x2100104100200109,
        3 => 0x80080180841000,
        4 => 0x200041002000820,
        5 => 0x200840010120028,
        6 => 0x680020007000180,
        7 => 0x8600005103802604,
        8 => 0x40800040003189,
        9 => 0x8400400050082000,
        10 => 0x2000801000822005,
        11 => 0x1001000821001004,
        12 => 0x822002090048a00,
        13 => 0x1801200800c01,
        14 => 0xa0b000100644200,
        15 => 0x8080801100004480,
        16 => 0x1880004000200440,
        17 => 0x810004004200440,
        18 => 0x12020041801023,
        19 => 0x3120028402200,
        20 => 0x808004004004200,
        21 => 0x14008002008004,
        22 => 0x402040010180201,
        23 => 0xc2010a0002428401,
        24 => 0x1c00280012181,
        25 => 0x810004840002000,
        26 => 0x1200880100080,
        27 => 0x101480480100081,
        28 => 0x1041480100111500,
        29 => 0xa000040080020080,
        30 => 0x284181400125045,
        31 => 0x3009285200008421,
        32 => 0x8002204001800489,
        33 => 0x4200184804000,
        34 => 0x202410251002000,
        35 => 0xa784811000800800,
        36 => 0x801c01800800,
        37 => 0x2500800400800200,
        38 => 0xc010085074000302,
        39 => 0x50005082002104,
        40 => 0x402400080028020,
        41 => 0x1004c020014002,
        42 => 0x200041050010,
        43 => 0x610008100080800,
        44 => 0x403c008040080800,
        45 => 0x1800402010080104,
        46 => 0x1000812862440010,
        47 => 0x100058059120014,
        48 => 0x2480014004208480,
        49 => 0x80a01080400580,
        50 => 0xa04100102000c100,
        51 => 0x3880812802100280,
        52 => 0x28000900100500,
        53 => 0x285800400020180,
        54 => 0x42194a08104400,
        55 => 0x13000040822100,
        56 => 0x80110042008422,
        57 => 0x89201a1008442,
        58 => 0x8820040101822,
        59 => 0x800082420300101,
        60 => 0x2052001810200402,
        61 => 0x4100080a8c0001,
        62 => 0x800208048a01100c,
        _ => 0x240c80410a,
    }
}

/// The magic multiplier of square `s` for diagonal sliders.
pub open spec fn diag_magic_of(s: int) -> u64 {
    if s == 0 { 0x8400414004202a0 } else if s == 1 { 0x8a52540c04034010 } else
    if s == 2 { 0x41550501000005 } else if s == 3 { 0x180404208814019c } else
    if s == 4 { 0x400c042008800100 } else if s == 5 { 0x8012028aa0001000 } else
    if s == 6 { 0x1001465010080108 } else if s == 7 { 0x8000a20810881801 } else
    if s == 8 { 0x4005010a0200 } else if s == 9 { 0x100c60a04141088 } else
    if s == 10 { 0x46088802c48200 } else if s == 11 { 0x8400140400980002 } else
    if s == 12 { 0x420210240200 } else if s == 13 { 0x1051008050a00 } else
    if s == 14 { 0x40e8020101194001 } else if s == 15 { 0x10104108281224 } else
    if s == 16 { 0x42002008010100 } else if s == 17 { 0x8008000312180a00 } else
    if s == 18 { 0x2008004442040110 } else if s == 19 { 0x102024402120004 } else
    if s == 20 { 0x24000880a00000 } else if s == 21 { 0x211002170023010 } else
    if s == 22 { 0x800044c882101000 } else if s == 23 { 0xc000800044042101 } else
    if s == 24 { 0x85a00224081014 } else if s == 25 { 0x2a207101010020a } else
    if s == 26 { 0x84021204080012 } else if s == 27 { 0x920080001004008 } else
    if s == 28 { 0x200a00a008040 } else if s == 29 { 0x8852081026080202 } else
    if s == 30 { 0x204038111081100 } else if s == 31 { 0x840100c081044800 } else
    if s == 32 { 0x2048180408412402 } else if s == 33 { 0x8004040400210102 } else
    if s == 34 { 0x810802080040800 } else if s == 35 { 0x8000208020080201 } else
    if s == 36 { 0x40024010050100 } else if s == 37 { 0x20018100008044 } else
    if s == 38 { 0x18410408850480 } else if s == 39 { 0x8090a08500018c02 } else
    if s == 40 { 0x4004010840350800 } else if s == 41 { 0x204010c02001044 } else
    if s == 42 { 0x441040205044200 } else if s == 43 { 0x1220202001424 } else
    if s == 44 { 0x1080102400408 } else if s == 45 { 0xc04a108102000300 } else
    if s == 46 { 0x8030404000880 } else if s == 47 { 0xc06040400624480 } else
    if s == 48 { 0x74020104204800 } else if s == 49 { 0x8041c824100000 } else
    if s == 50 { 0x1a00108048180048 } else if s == 51 { 0x1880042184044000 } else
    if s == 52 { 0x28480c009024210 } else if s == 53 { 0x1400100210070020 } else
    if s == 54 { 0x40208421420c0004 } else if s == 55 { 0xa2a0080901c88480 } else
    if s == 56 { 0x460840190900880 } else if s == 57 { 0x40011401010829 } else
    if s == 58 { 0x310450884c81800 } else if s == 59 { 0x4010000002050400 } else
    if s == 60 { 0x2000802028902401 } else if s == 61 { 0x2020000420440110 } else
    if s == 62 { 0x4c1020600a208314 } else { 0x9104205449020010 }
}

/// Magic multiplier of square `s` for diagonal sliders.
pub fn diag_magic(s: usize) -> (r: u64)
    ensures
        s < 64 ==> r == diag_magic_of(s as int),
{
    match s {
        0 => 0x8400414004202a0,
        1 => 0x8a52540c04034010,
        2 => 0x41550501000005,
        3 => 0x180404208814019c,
        4 => 0x400c042008800100,
        5 => 0x8012028aa0001000,
        6 => 0x1001465010080108,
        7 => 0x8000a20810881801,
        8 => 0x4005010a0200,
        9 => 0x100c60a04141088,
        10 => 0x46088802c48200,
        11 => 0x8400140400980002,
        12 => 0x420210240200,
        13 => 0x1051008050a00,
        14 => 0x40e8020101194001,
        15 => 0x10104108281224,
        16 => 0x42002008010100,
        17 => 0x8008000312180a00,
        18 => 0x2008004442040110,
        19 => 0x102024402120004,
        20 => 0x24000880a00000,
        21 => 0x211002170023010,
        22 => 0x800044c882101000,
        23 => 0xc000800044042101,
        24 => 0x85a00224081014,
        25 => 0x2a207101010020a,
        26 => 0x84021204080012,
        27 => 0x920080001004008,
        28 => 0x200a00a008040,
        29 => 0x8852081026080202,
        30 => 0x204038111081100,
        31 => 0x840100c081044800,
        32 => 0x2048180408412402,
        33 => 0x8004040400210102,
        34 => 0x810802080040800,
        35 => 0x8000208020080201,
        36 => 0x40024010050100,
        37 => 0x20018100008044,
        38 => 0x18410408850480,
        39 => 0x8090a08500018c02,
        40 => 0x4004010840350800,
        41 => 0x204010c02001044,
        42 => 0x441040205044200,
        43 => 0x1220202001424,
        44 => 0x1080102400408,
        45 => 0xc04a108102000300,
        46 => 0x8030404000880,
        47 => 0xc06040400624480,
        48 => 0x74020104204800,
        49 => 0x8041c824100000,
        50 => 0x1a00108048180048,
        51 => 0x1880042184044000,
        52 => 0x28480c009024210,
        53 => 0x1400100210070020,
        54 => 0x40208421420c0004,
        55 => 0xa2a0080901c88480,
        56 => 0x460840190900880,
        57 => 0x40011401010829,
        58 => 0x310450884c81800,
        59 => 0x4010000002050400,
        60 => 0x2000802028902401,
        61 => 0x2020000420440110,
        62 => 0x4c1020600a208314,
        _ => 0x9104205449020010,
    }
}

/// The magic multiplier of square `s` for stradler buddies.
pub open spec fn stradler_magic_of(s: int) -> u64 {
    if s == 0 { 0x6000680210a00008 } else if s == 1 { 0xb1a41022028404c } else
    if s == 2 { 0x4200200840000800 } else if s == 3 { 0x5200102000029422 } else
    if s == 4 { 0x228004c108001002 } else if s == 5 { 0xd00028a04000000 } else
    if s == 6 { 0x1840410402004010 } else if s == 7 { 0x480108102000101 } else
    if s == 8 { 0x8010018028000c00 } else if s == 9 { 0x1400a020020001 } else
    if s == 10 { 0xc484003862080002 } else if s == 11 { 0x521805011105020 } else
    if s == 12 { 0x1010a10820001002 } else if s == 13 { 0x201084612850080c } else
    if s == 14 { 0x2aa083900500004 } else if s == 15 { 0x420c0109010068 } else
    if s == 16 { 0x201090238801400b } else if s == 17 { 0x10080840c220060a } else
    if s == 18 { 0x2020210011260044 } else if s == 19 { 0x1020120402044902 } else
    if s == 20 { 0x410221024200000c } else if s == 21 { 0x20016400400007c } else
    if s == 22 { 0x818005040a000020 } else if s == 23 { 0x3840240000832111 } else
    if s == 24 { 0x1848c3080360444 } else if s == 25 { 0xa20001004128020 } else
    if s == 26 { 0x4208529800500000 } else if s == 27 { 0x800490420a420041 } else
    if s == 28 { 0x800400a280090000 } else if s == 29 { 0x8004090420120401 } else
    if s == 30 { 0x1010a20404020089 } else if s == 31 { 0xc00808900010000 } else
    if s == 32 { 0x20602020024180 } else if s == 33 { 0x101110011184a500 } else
    if s == 34 { 0x6230442010410 } else if s == 35 { 0x2001100090900884 } else
    if s == 36 { 0xa20812040d08 } else if s == 37 { 0x82140104200214 } else
    if s == 38 { 0x100146002d000080 } else if s == 39 { 0x5184064a02001502 } else
    if s == 40 { 0x80808200080042 } else if s == 41 { 0x10704880042124 } else
    if s == 42 { 0x182000d28410 } else if s == 43 { 0x910018410208011 } else
    if s == 44 { 0x1000188400208805 } else if s == 45 { 0x51000a080090101 } else
    if s == 46 { 0x9001080080049 } else if s == 47 { 0x810910084112801 } else
    if s == 48 { 0x20800100c0002000 } else if s == 49 { 0x4000102040000800 } else
    if s == 50 { 0x80080008a0004200 } else if s == 51 { 0x920016005401640c } else
    if s == 52 { 0xc80010003002110 } else if s == 53 { 0x10001020a021044 } else
    if s == 54 { 0x400210002000418 } else if s == 55 { 0xa40804050110071c } else
    if s == 56 { 0x2044008200820010 } else if s == 57 { 0x200300000400298 } else
    if s == 58 { 0x900840288100438 } else if s == 59 { 0x400400000888a014 } else
    if s == 60 { 0x120400500a0a0032 } else if s == 61 { 0x40000000024015 } else
    if s == 62 { 0x502d001620460404 } else { 0x2a2000000430002 }
}

/// Magic multiplier of square `s` for stradler buddies.
pub fn stradler_magic(s: usize) -> (r: u64)
    ensures
        s < 64 ==> r == stradler_magic_of(s as int),
{
    match s {
        0 => 0x6000680210a00008,
        1 => 0xb1a41022028404c,
        2 => 0x4200200840000800,
        3 => 0x5200102000029422,
        4 => 0x228004c108001002,
        5 => 0xd00028a04000000,
        6 => 0x1840410402004010,
        7 => 0x480108102000101,
        8 => 0x8010018028000c00,
        9 => 0x1400a020020001,
        10 => 0xc484003862080002,
        11 => 0x521805011105020,
        12 => 0x1010a10820001002,
        13 => 0x201084612850080c,
        14 => 0x2aa083900500004,
        15 => 0x420c0109010068,
        16 => 0x201090238801400b,
        17 => 0x10080840c220060a,
        18 => 0x2020210011260044,
        19 => 0x1020120402044902,
        20 => 0x410221024200000c,
        21 => 0x20016400400007c,
        22 => 0x818005040a000020,
        23 => 0x3840240000832111,
        24 => 0x1848c3080360444,
        25 => 0xa20001004128020,
        26 => 0x4208529800500000,
        27 => 0x800490420a420041,
        28 => 0x800400a280090000,
        29 => 0x8004090420120401,
        30 => 0x1010a20404020089,
        31 => 0xc00808900010000,
        32 => 0x20602020024180,
        33 => 0x101110011184a500,
        34 => 0x6230442010410,
        35 => 0x2001100090900884,
        36 => 0xa20812040d08,
        37 => 0x82140104200214,
        38 => 0x100146002d000080,
        39 => 0x5184064a02001502,
        40 => 0x80808200080042,
        41 => 0x10704880042124,
        42 => 0x182000d28410,
        43 => 0x910018410208011,
        44 => 0x1000188400208805,
        45 => 0x51000a080090101,
        46 => 0x9001080080049,
        47 => 0x810910084112801,
        48 => 0x20800100c0002000,
        49 => 0x4000102040000800,
        50 => 0x80080008a0004200,
        51 => 0x920016005401640c,
        52 => 0xc80010003002110,
        53 => 0x10001020a021044,
        54 => 0x400210002000418,
        55 => 0xa40804050110071c,
        56 => 0x2044008200820010,
        57 => 0x200300000400298,
        58 => 0x900840288100438,
        59 => 0x400400000888a014,
        60 => 0x120400500a0a0032,
        61 => 0x40000000024015,
        62 => 0x502d001620460404,
        _ => 0x2a2000000430002,
    }
}

/// The magic multiplier of square `s` for retractor neighbours.
pub open spec fn retractor_magic_of(s: int) -> u64 {
    if s == 0 { 0x8100048804400 } else if s == 1 { 0xa004012501082080 } else
    if s == 2 { 0x100000a40001c200 } else if s == 3 { 0x11002c4010200000 } else
    if s == 4 { 0x90001048488400c } else if s == 5 { 0x50c00000180040a0 } else
    if s == 6 { 0x100008414021005 } else if s == 7 { 0x8895200400060020 } else
    if s == 8 { 0x4800410004000410 } else if s == 9 { 0x44026000c3804002 } else
    if s == 10 { 0x9000c20200000100 } else if s == 11 { 0x180061000400001c } else
    if s == 12 { 0xac004a8010020000 } else if s == 13 { 0xa00184081221140 } else
    if s == 14 { 0x4100821010084004 } else if s == 15 { 0x81000ac140014900 } else
    if s == 16 { 0xa004001080012 } else if s == 17 { 0x2040260000bc308 } else
    if s == 18 { 0x230012201800000 } else if s == 19 { 0x88041082080505 } else
    if s == 20 { 0x1011804c00200400 } else if s == 21 { 0x72002440002202 } else
    if s == 22 { 0x1009220010801 } else if s == 23 { 0x4043440210000120 } else
    if s == 24 { 0x1208444010808200 } else if s == 25 { 0x4000a00408840080 } else
    if s == 26 { 0x100204420010 } else if s == 27 { 0x848080061009000 } else
    if s == 28 { 0x400911008080c0 } else if s == 29 { 0x2004026001008 } else
    if s == 30 { 0x143891a013000854 } else if s == 31 { 0x24430a200424400 } else
    if s == 32 { 0x44200808488044 } else if s == 33 { 0x3404c80402600201 } else
    if s == 34 { 0x80002290012e0010 } else if s == 35 { 0x2820222800910401 } else
    if s == 36 { 0x8010d0400308060 } else if s == 37 { 0x20040200c08801 } else
    if s == 38 { 0x1000080100821018 } else if s == 39 { 0x20000484002200 } else
    if s == 40 { 0x45101080000800 } else if s == 41 { 0x4010040820040884 } else
    if s == 42 { 0x200000201000c200 } else if s == 43 { 0x4800281008006100 } else
    if s == 44 { 0x80000294020840 } else if s == 45 { 0x200002002440 } else
    if s == 46 { 0x18004011000c20 } else if s == 47 { 0x4000120100800822 } else
    if s == 48 { 0x10000c0000800190 } else if s == 49 { 0x40000a0020200244 } else
    if s == 50 { 0xa01888010100823 } else if s == 51 { 0x80061 } else
    if s == 52 { 0x200005008a06804c } else if s == 53 { 0x1002004020254026 } else
    if s == 54 { 0x5802aa013 } else if s == 55 { 0x82000001808010c3 } else
    if s == 56 { 0x204009108010 } else if s == 57 { 0x80a40800000a4408 } else
    if s == 58 { 0x600002288048 } else if s == 59 { 0xd020000802100088 } else
    if s == 60 { 0xc04d0082000000c } else if s == 61 { 0x4c01000000000011 } else
    if s == 62 { 0x80004040009d1001 } else { 0x50300000862000 }
}

/// Magic multiplier of square `s` for retractor neighbours.
pub fn retractor_magic(s: usize) -> (r: u64)
    ensures
        s < 64 ==> r == retractor_magic_of(s as int),
{
    match s {
        0 => 0x8100048804400,
        1 => 0xa004012501082080,
        2 => 0x100000a40001c200,
        3 => 0x11002c4010200000,
        4 => 0x90001048488400c,
        5 => 0x50c00000180040a0,
        6 => 0x100008414021005,
        7 => 0x8895200400060020,
        8 => 0x4800410004000410,
        9 => 0x44026000c3804002,
        10 => 0x9000c20200000100,
        11 => 0x180061000400001c,
        12 => 0xac004a8010020000,
        13 => 0xa00184081221140,
        14 => 0x4100821010084004,
        15 => 0x81000ac140014900,
        16 => 0xa004001080012,
        17 => 0x2040260000bc308,
        18 => 0x230012201800000,
        19 => 0x88041082080505,
        20 => 0x1011804c00200400,
        21 => 0x72002440002202,
        22 => 0x1009220010801,
        23 => 0x4043440210000120,
        24 => 0x1208444010808200,
        25 => 0x4000a00408840080,
        26 => 0x100204420010,
        27 => 0x848080061009000,
        28 => 0x400911008080c0,
        29 => 0x2004026001008,
        30 => 0x143891a013000854,
        31 => 0x24430a200424400,
        32 => 0x44200808488044,
        33 => 0x3404c80402600201,
        34 => 0x80002290012e0010,
        35 => 0x2820222800910401,
        36 => 0x8010d0400308060,
        37 => 0x20040200c08801,
        38 => 0x1000080100821018,
        39 => 0x20000484002200,
        40 => 0x45101080000800,
        41 => 0x4010040820040884,
        42 => 0x200000201000c200,
        43 => 0x4800281008006100,
        44 => 0x80000294020840,
        45 => 0x200002002440,
        46 => 0x18004011000c20,
        47 => 0x4000120100800822,
        48 => 0x10000c0000800190,
        49 => 0x40000a0020200244,
        50 => 0xa01888010100823,
        51 => 0x80061,
        52 => 0x200005008a06804c,
        53 => 0x1002004020254026,
        54 => 0x5802aa013,
        55 => 0x82000001808010c3,
        56 => 0x204009108010,
        57 => 0x80a40800000a4408,
        58 => 0x600002288048,
        59 => 0xd020000802100088,
        60 => 0xc04d0082000000c,
        61 => 0x4c01000000000011,
        62 => 0x80004040009d1001,
        _ => 0x50300000862000,
    }
}

/// The four tables: orthogonal and diagonal slides, stradler custodian
/// captures by buddy squares, retractor captures by neighbour squares.
#[derive(Clone, Copy, PartialEq, Eq, Structural, Debug)]
pub enum TableKind {
    Orthogonal,
    Diagonal,
    Stradler,
    Retractor,
}

/// The squares whose occupancy matters on `s`.
pub open spec fn relevant(kind: TableKind, s: int) -> Set<int> {
    match kind {
        TableKind::Orthogonal => orth_mask(s),
        TableKind::Diagonal => diag_mask(s),
        TableKind::Stradler => buddy_ring(s),
        TableKind::Retractor => king_ring(s),
    }
}

/// What the reference generator gives on `s` with occupancy `b`.
pub open spec fn oracle(kind: TableKind, s: int, b: u64) -> Set<int> {
    match kind {
        TableKind::Orthogonal => orth_reach(s, b),
        TableKind::Diagonal => diag_reach(s, b),
        TableKind::Stradler => stradler_reach(s, b),
        TableKind::Retractor => retractor_reach(s, b),
    }
}

pub fn relevant_mask(kind: TableKind, s: usize) -> (r: Bitboard)
    requires
        s < 64,
    ensures
        r@ == relevant(kind, s as int),
{
    match kind {
        TableKind::Orthogonal => orthogonal_block_mask(s),
        TableKind::Diagonal => diagonal_block_mask(s),
        TableKind::Stradler => buddy_mask(s),
        TableKind::Retractor => king_mask(s),
    }
}

pub fn reference(kind: TableKind, s: usize, b: Bitboard) -> (r: Bitboard)
    requires
        s < 64,
    ensures
        r@ == oracle(kind, s as int, b.0),
{
    match kind {
        TableKind::Orthogonal => generate_orthogonal_moves(s, b),
        TableKind::Diagonal => generate_diagonal_moves(s, b),
        TableKind::Stradler => generate_stradler_captures(s, b),
        TableKind::Retractor => generate_retractor_captures(s, b),
    }
}

/// The magic multiplier of square `s` for tables of `kind`.
pub open spec fn magic_value(kind: TableKind, s: int) -> u64 {
    match kind {
        TableKind::Orthogonal => orth_magic_of(s),
        TableKind::Diagonal => diag_magic_of(s),
        TableKind::Stradler => stradler_magic_of(s),
        TableKind::Retractor => retractor_magic_of(s),
    }
}

pub fn magic_of(kind: TableKind, s: usize) -> (r: u64)
    ensures
        s < 64 ==> r == magic_value(kind, s as int),
{
    match kind {
        TableKind::Orthogonal => orth_magic(s),
        TableKind::Diagonal => diag_magic(s),
        TableKind::Stradler => stradler_magic(s),
        TableKind::Retractor => retractor_magic(s),
    }
}

/// Slots a square with mask `w` takes: `2^popcount(w)`, none for a mask of
/// more than 16 squares.
pub open spec fn span(w: u64) -> int {
    if popcount(w) <= 16 { (1u64 << popcount(w) as u64) as int } else { 0 }
}

/// First slot of square `s`: the spans of the squares below it, summed.
pub open spec fn prefix(masks: Seq<u64>, s: int) -> int
    decreases s,
{
    if s <= 0 { 0 } else { prefix(masks, s - 1) + span(masks[s - 1]) }
}

proof fn lemma_prefix_push(masks: Seq<u64>, m: u64, t: int)
    requires
        0 <= t <= masks.len() + 1,
    ensures
        prefix(masks.push(m), t) == if t <= masks.len() { prefix(masks, t) } else { prefix(masks, t - 1) + span(m) },
    decreases t,
{
    if t > 0 {
        lemma_prefix_push(masks, m, t - 1);
    }
}

/// A magic lookup table of one kind.
pub struct MagicTable {
    kind: TableKind,
    masks: Vec<u64>,
    magics: Vec<u64>,
    throwaway: Vec<u8>,
    offsets: Vec<usize>,
    entries: Vec<Bitboard>,
    keys: Vec<u64>,
    owners: Vec<usize>,
}

impl MagicTable {
    pub closed spec fn kind_of(self) -> TableKind {
        self.kind
    }

    pub closed spec fn mask_word(self, s: int) -> u64 {
        self.masks@[s]
    }

    pub closed spec fn mask_words(self) -> Seq<u64> {
        self.masks@
    }

    pub closed spec fn shift_of(self, s: int) -> u8 {
        self.throwaway@[s]
    }

    pub closed spec fn size(self) -> int {
        self.entries@.len() as int
    }

    /// Square whose blocker subset `keys[i]` slot `i` was written for (64: none).
    pub closed spec fn owner(self, i: int) -> usize {
        self.owners@[i]
    }

    pub closed spec fn key(self, i: int) -> u64 {
        self.keys@[i]
    }

    pub closed spec fn entry_at(self, i: int) -> Bitboard {
        self.entries@[i]
    }

    /// The table's invariant: each square's mask is its relevant blockers and
    /// its shift is 64 less the mask's size; every written slot holds what the
    /// reference generator gives for the square and blocker subset it was
    /// written for.
    pub closed spec fn wf(self) -> bool {
        &&& self.masks@.len() == 64
        &&& self.magics@.len() == 64
        &&& self.throwaway@.len() == 64
        &&& self.offsets@.len() == 64
        &&& self.keys@.len() == self.entries@.len()
        &&& self.owners@.len() == self.entries@.len()
        &&& forall|s: int| 0 <= s < 64 ==> squares(#[trigger] self.masks@[s]) == relevant(self.kind, s)
        &&& forall|s: int| 0 <= s < 64 ==> #[trigger] self.throwaway@[s] + popcount(self.masks@[s]) == 64
        &&& forall|s: int| 0 <= s < 64 ==> #[trigger] self.magics@[s] == magic_value(self.kind, s)
        &&& forall|s: int| 0 <= s < 64 ==> #[trigger] self.offsets@[s] == prefix(self.masks@, s)
        &&& self.entries@.len() == prefix(self.masks@, 64)
        &&& forall|i: int| 0 <= i < self.entries@.len() && #[trigger] self.owners@[i] < 64
            ==> self.entries@[i]@ == oracle(self.kind, self.owners@[i] as int, self.keys@[i])
    }

    /// A written slot holds the reference result for its square and blocker subset.
    pub proof fn lemma_slot(self, i: int)
        requires
            self.wf(),
            0 <= i < self.size(),
            self.owner(i) < 64,
        ensures
            self.entry_at(i)@ == oracle(self.kind_of(), self.owner(i) as int, self.key(i)),
    {
    }

    /// Builds the table of `kind`: masks, multipliers, shifts, and for every
    /// square a run of `2^popcount(mask)` slots starting at its offset, the
    /// runs laid out one after another; every blocker subset of each mask,
    /// enumerated by `sub = (sub - mask) & mask`, is written at
    /// `offset + magic_index(sub)`.
    pub fn new(kind: TableKind) -> (r: MagicTable)
        ensures
            r.wf(),
            r.kind_of() == kind,
    {
        let mut masks: Vec<u64> = Vec::new();
        let mut magics: Vec<u64> = Vec::new();
        let mut throwaway: Vec<u8> = Vec::new();
        let mut offsets: Vec<usize> = Vec::new();
        let mut total: usize = 0;
        let mut s: usize = 0;
        while s < 64
            invariant
                s <= 64,
                masks@.len() == s,
                magics@.len() == s,
                throwaway@.len() == s,
                offsets@.len() == s,
                total <= s * 0x10000,
                total == prefix(masks@, s as int),
                forall|t: int| 0 <= t < s ==> #[trigger] magics@[t] == magic_value(kind, t),
                forall|t: int| 0 <= t < s ==> #[trigger] offsets@[t] == prefix(masks@, t),
                forall|t: int| 0 <= t < s ==> squares(#[trigger] masks@[t]) == relevant(kind, t),
                forall|t: int| 0 <= t < s ==> #[trigger] throwaway@[t] + popcount(masks@[t]) == 64,
                forall|t: int| 0 <= t < s ==> #[trigger] throwaway@[t] <= 64,
                forall|t: int| 0 <= t < s && #[trigger] throwaway@[t] >= 48 ==> offsets@[t] + (1u64 << (64 - throwaway@[t]) as u64) <= total,
            decreases 64 - s,
        {
            let m = relevant_mask(kind, s).0;
            let pop = count_squares(m);
            let ghost before = masks@;
            masks.push(m);
            assert(masks@ == before.push(m));
            assert forall|t: int| 0 <= t <= s + 1 implies #[trigger] prefix(masks@, t)
                == if t <= s { prefix(before, t) } else { prefix(before, s as int) + span(m) } by {
                lemma_prefix_push(before, m, t);
            }
            magics.push(magic_of(kind, s));
            throwaway.push((64 - pop) as u8);
            offsets.push(total);
            if pop <= 16 {
                let span = 1u64 << pop as u64;
                assert(pop <= 16 ==> 1u64 << pop as u64 <= 0x10000) by (bit_vector);
                total = total + span as usize;
            }
            s = s + 1;
        }
        let mut entries: Vec<Bitboard> = vec![Bitboard(0xFFFF_FFFF_FFFF_FFFF); total];
        let mut keys: Vec<u64> = vec![0; total];
        let mut owners: Vec<usize> = vec![64; total];
        let mut s: usize = 0;
        while s < 64
            invariant
                s <= 64,
                masks@.len() == 64,
                magics@.len() == 64,
                throwaway@.len() == 64,
                offsets@.len() == 64,
                entries@.len() == total,
                keys@.len() == total,
                owners@.len() == total,
                total == prefix(masks@, 64),
                forall|t: int| 0 <= t < 64 ==> #[trigger] magics@[t] == magic_value(kind, t),
                forall|t: int| 0 <= t < 64 ==> #[trigger] offsets@[t] == prefix(masks@, t),
                forall|t: int| 0 <= t < 64 ==> squares(#[trigger] masks@[t]) == relevant(kind, t),
                forall|t: int| 0 <= t < 64 ==> #[trigger] throwaway@[t] + popcount(masks@[t]) == 64,
                forall|t: int| 0 <= t < 64 ==> #[trigger] throwaway@[t] <= 64,
                forall|t: int| 0 <= t < 64 && #[trigger] throwaway@[t] >= 48 ==> offsets@[t] + (1u64 << (64 - throwaway@[t]) as u64) <= total,
                forall|i: int| 0 <= i < entries@.len() && #[trigger] owners@[i] < 64
                    ==> entries@[i]@ == oracle(kind, owners@[i] as int, keys@[i]),
            decreases 64 - s,
        {
            let shift = throwaway[s];
            assert(shift <= 64);
            if shift >= 48 && shift < 64 {
                let mask = masks[s];
                let magic = magics[s];
                let base = offsets[s];
                let span: u64 = 1u64 << (64 - shift) as u64;
                let mut sub: u64 = 0;
                let mut j: u64 = 0;
                while j < span
                    invariant
                        s < 64,
                        48 <= shift < 64,
                        span == (1u64 << (64 - shift) as u64),
                        base + span <= total,
                        entries@.len() == total,
                        keys@.len() == total,
                        owners@.len() == total,
                        forall|i: int| 0 <= i < entries@.len() && #[trigger] owners@[i] < 64
                            ==> entries@[i]@ == oracle(kind, owners@[i] as int, keys@[i]),
                    decreases span - j,
                {
                    sub = sub.wrapping_sub(mask) & mask;
                    let index = magic_index(Bitboard(sub), magic, shift);
                    let slot = base + index;
                    entries.set(slot, reference(kind, s, Bitboard(sub)));
                    keys.set(slot, sub);
                    owners.set(slot, s);
                    j = j + 1;
                }
            }
            s = s + 1;
        }
        MagicTable { kind, masks, magics, throwaway, offsets, entries, keys, owners }
    }

    /// For every square the shift plus the number of relevant blockers is 64.
    pub proof fn lemma_throwaway(self, s: int)
        requires
            self.wf(),
            0 <= s < 64,
        ensures
            self.shift_of(s) + popcount(self.mask_word(s)) == 64,
            squares(self.mask_word(s)) == relevant(self.kind_of(), s),
    {
    }

    pub fn kind(&self) -> (r: TableKind)
        ensures
            r == self.kind_of(),
    {
        self.kind
    }

    /// Relevant blockers of square `s`.
    pub fn mask(&self, s: usize) -> (r: Bitboard)
        requires
            self.wf(),
            s < 64,
        ensures
            r.0 == self.mask_word(s as int),
            r@ == relevant(self.kind_of(), s as int),
    {
        Bitboard(self.masks[s])
    }

    pub fn magic(&self, s: usize) -> (r: u64)
        requires
            self.wf(),
            s < 64,
        ensures
            r == magic_value(self.kind_of(), s as int),
    {
        self.magics[s]
    }

    /// Shift of square `s`: 64 less its number of relevant blockers.
    pub fn throwaway(&self, s: usize) -> (r: u8)
        requires
            self.wf(),
            s < 64,
        ensures
            r == self.shift_of(s as int),
            r + popcount(self.mask_word(s as int)) == 64,
    {
        self.throwaway[s]
    }

    /// First slot of square `s`.
    pub fn offset(&self, s: usize) -> (r: usize)
        requires
            self.wf(),
            s < 64,
        ensures
            r == prefix(self.mask_words(), s as int),
            self.size() == prefix(self.mask_words(), 64),
    {
        self.offsets[s]
    }

    /// Number of slots.
    pub fn len(&self) -> (r: usize)
        ensures
            r == self.size(),
    {
        self.entries.len()
    }

    /// Slot `i` as written (all ones if no subset was written there).
    pub fn entry(&self, i: usize) -> (r: Bitboard)
        requires
            i < self.size(),
        ensures
            r == self.entry_at(i as int),
    {
        self.entries[i]
    }

    /// What the reference generator gives on `s` for the relevant part of
    /// `blockers`, read from the table when the slot was written for that
    /// very subset, computed otherwise. For the sliding tables this is the
    /// reference result on `blockers` itself: squares outside the mask do not
    /// change a slide.
    pub fn lookup(&self, s: usize, blockers: Bitboard) -> (r: Bitboard)
        requires
            self.wf(),
            s < 64,
        ensures
            r@ == oracle(self.kind_of(), s as int, blockers.0 & self.mask_word(s as int)),
            self.kind_of() == TableKind::Orthogonal || self.kind_of() == TableKind::Diagonal
                ==> r@ == oracle(self.kind_of(), s as int, blockers.0),
    {
        let kept = Bitboard(blockers.0 & self.masks[s]);
        proof {
            let m = self.masks@[s as int];
            lemma_and(blockers.0, m);
            assert(squares(m) == relevant(self.kind, s as int));
            assert forall|u: int| relevant(self.kind, s as int).contains(u) implies
                (bit(blockers.0 & m, u) <==> bit(blockers.0, u)) by {
                assert(squares(blockers.0 & m).contains(u) == bit(blockers.0 & m, u));
                assert(squares(m).contains(u));
            }
            lemma_reach_relevant(s as int, blockers.0 & m, blockers.0);
        }
        let shift = self.throwaway[s];
        if shift < 64 {
            let index = magic_index(kept, self.magics[s], shift);
            let base = self.offsets[s];
            if index < self.entries.len() && base < self.entries.len() - index {
                let slot = base + index;
                if self.owners[slot] == s && self.keys[slot] == kept.0 {
                    return self.entries[slot];
                }
            }
        }
        reference(self.kind, s, kept)
    }
}

} // verus!
