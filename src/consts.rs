use vstd::prelude::*;
use vstd::string::StringExecFns;
use crate::map::PixelFormat;

verus! {

pub const DATA_DIR: &'static str = "data";
pub const OVERLAYS_DIR: &'static str = "overlay";
pub const DECOMPRESSED_OVERLAYS_DIR: &'static str = "overlay.dec";

pub const STANDARD_FILE_ALIGNMENT: usize = 512;
pub const STANDARD_DATA_WITH_OFFSET_TABLE_ALIGNMENT: usize = 4;

pub const TILE_WIDTH: usize = 8;
pub const TILE_HEIGHT: usize = 8;
pub const TILE_AREA: usize = TILE_WIDTH * TILE_HEIGHT;

pub const BATTLE_TILESET_PIXEL_FORMAT: PixelFormat = PixelFormat::FourBitsPerPixel;
pub const BATTLE_MAP_WIDTH: usize = 64;
pub const BATTLE_MAP_HEIGHT: usize = 32;

pub const NUMBER_OF_FIELD_MAPS: usize = 0x02A9;
/// In overlay 3.
pub const FMAPDATA_OFFSET_TABLE_LENGTH_ADDRESS: u64 = 0x11310;
/// In overlay 3.
pub const FMAPDATA_OFFSET_TABLE_ADDRESS: u64 = FMAPDATA_OFFSET_TABLE_LENGTH_ADDRESS + 4;
/// In overlay 4.
pub const TREASURE_INFO_OFFSET_TABLE_LENGTH_ADDRESS: u64 = 0x4AA30;
/// In overlay 4.
pub const TREASURE_INFO_OFFSET_TABLE_ADDRESS: u64 = TREASURE_INFO_OFFSET_TABLE_LENGTH_ADDRESS + 4;
/// In overlay 3.
pub const FIELD_MAP_CHUNK_TABLE_ADDRESS: u64 = 0x19FD0;

/// The decimal digits of `n`, most significant first.
pub open spec fn decimal(n: nat) -> Seq<char>
    decreases n,
{
    if n < 10 {
        seq![digit_char(n)]
    } else {
        decimal(n / 10).push(digit_char(n % 10))
    }
}

pub open spec fn digit_char(d: nat) -> char {
    if d < 10 {
        (('0' as u8) + d) as char
    } else {
        '?'
    }
}

/// `n` in decimal, with leading zeros up to `width` digits.
pub open spec fn zero_padded(n: nat, width: nat) -> Seq<char> {
    if decimal(n).len() < width {
        Seq::new((width - decimal(n).len()) as nat, |i: int| '0') + decimal(n)
    } else {
        decimal(n)
    }
}

fn digit_str(d: u32) -> (r: &'static str)
    requires
        d < 10,
    ensures
        r@ == seq![digit_char(d as nat)],
{
    proof {
        reveal_strlit("0");
        reveal_strlit("1");
        reveal_strlit("2");
        reveal_strlit("3");
        reveal_strlit("4");
        reveal_strlit("5");
        reveal_strlit("6");
        reveal_strlit("7");
        reveal_strlit("8");
        reveal_strlit("9");
    }
    let r = if d == 0 {
        "0"
    } else if d == 1 {
        "1"
    } else if d == 2 {
        "2"
    } else if d == 3 {
        "3"
    } else if d == 4 {
        "4"
    } else if d == 5 {
        "5"
    } else if d == 6 {
        "6"
    } else if d == 7 {
        "7"
    } else if d == 8 {
        "8"
    } else {
        "9"
    };
    assert(r@ =~= seq![digit_char(d as nat)]);
    r
}

/// Appends `n` in decimal to `out`.
fn push_decimal(out: &mut String, n: u32)
    ensures
        final(out)@ == old(out)@ + decimal(n as nat),
    decreases n,
{
    if n < 10 {
        out.append(digit_str(n));
    } else {
        push_decimal(out, n / 10);
        out.append(digit_str(n % 10));
        assert(old(out)@ + decimal(n as nat) =~= old(out)@ + decimal((n / 10) as nat) + seq![
            digit_char((n % 10) as nat),
        ]);
    }
}

proof fn lemma_decimal_len(n: nat)
    ensures
        1 <= decimal(n).len(),
        n < 10 ==> decimal(n).len() == 1,
        10 <= n < 100 ==> decimal(n).len() == 2,
        100 <= n < 1000 ==> decimal(n).len() == 3,
        1000 <= n ==> decimal(n).len() >= 4,
    decreases n,
{
    if n >= 10 {
        lemma_decimal_len(n / 10);
    }
}

/// Appends `n` in decimal, at least four digits wide.
fn push_decimal_4(out: &mut String, n: u32)
    ensures
        final(out)@ == old(out)@ + zero_padded(n as nat, 4),
{
    proof {
        reveal_strlit("0");
        reveal_strlit("00");
        reveal_strlit("000");
        lemma_decimal_len(n as nat);
    }
    if n < 10 {
        out.append("000");
    } else if n < 100 {
        out.append("00");
    } else if n < 1000 {
        out.append("0");
    }
    let ghost mid = out@;
    push_decimal(out, n);
    assert(out@ =~= old(out)@ + zero_padded(n as nat, 4));
}

/// Where a file of the game's data directory lies in an unpacked copy.
pub fn fs_std_data_path(path: &str) -> (r: String)
    ensures
        r@ == "data/data/"@ + path@,
{
    let mut r = String::from_str("data/data/");
    r.append(path);
    r
}

/// Where a decompressed overlay lies in an unpacked copy.
pub fn fs_std_overlay_path(overlay_id: u32) -> (r: String)
    ensures
        r@ == "data/overlay.dec/overlay_"@ + zero_padded(overlay_id as nat, 4) + ".dec.bin"@,
{
    let mut r = String::from_str("data/overlay.dec/overlay_");
    push_decimal_4(&mut r, overlay_id);
    r.append(".dec.bin");
    r
}

} // verus!
