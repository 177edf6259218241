use vstd::prelude::*;
use vstd::string::StringSliceAdditionalSpecFns;
use vstd::utf8::{
    encode_utf8, encode_utf8_valid_utf8, is_char_boundary, is_char_boundary_iff_not_is_continuation_byte,
    is_char_boundary_start_end_of_seq, is_continuation_byte, valid_utf8, valid_utf8_split,
};

verus! {

/// Declares `std::io::Error`, which `ConfigLoadError` carries where the
/// configuration file could not be read; nothing is assumed of its values.
#[verifier::external_type_specification]
#[verifier::external_body]
pub struct ExIoError(std::io::Error);

/// Where the client finds its fonts, its saved worlds and its assets.
pub struct Config {
    pub main_font: String,
    pub mono_font: String,
    pub saves_dir: String,
    pub assets_dir: String,
}

/// Why no configuration could be had.
#[derive(Debug)]
pub enum ConfigLoadError {
    /// The configuration file could not be read.
    NoConfig(std::io::Error),
    NoSavesDir,
    NoAssetsDir,
    NoMainFont,
    NoMonoFont,
}

/// Line feed, which ends a line.
pub const NEWLINE: u8 = 0x0a;

/// Carriage return, dropped where it comes just before a line feed.
pub const RETURN: u8 = 0x0d;

/// Space, which ends a key.
pub const SPACE: u8 = 0x20;

/// The key of the saves directory.
pub open spec fn saves_dir_key() -> Seq<u8> {
    seq!['s' as u8, 'a' as u8, 'v' as u8, 'e' as u8, 's' as u8, '-' as u8, 'd' as u8, 'i' as u8, 'r' as u8]
}

/// The key of the assets directory.
pub open spec fn assets_dir_key() -> Seq<u8> {
    seq!['a' as u8, 's' as u8, 's' as u8, 'e' as u8, 't' as u8, 's' as u8, '-' as u8, 'd' as u8, 'i' as u8, 'r' as u8]
}

/// The key of the main font.
pub open spec fn main_font_key() -> Seq<u8> {
    seq!['m' as u8, 'a' as u8, 'i' as u8, 'n' as u8, '-' as u8, 'f' as u8, 'o' as u8, 'n' as u8, 't' as u8]
}

/// The key of the monospace font.
pub open spec fn mono_font_key() -> Seq<u8> {
    seq!['m' as u8, 'o' as u8, 'n' as u8, 'o' as u8, '-' as u8, 'f' as u8, 'o' as u8, 'n' as u8, 't' as u8]
}

/// Where the line that starts at `s` ends: at the first `\n` from `s` on, or
/// at the end of the text.
pub open spec fn line_end(b: Seq<u8>, s: int) -> int
    decreases b.len() - s,
{
    if s >= b.len() {
        b.len() as int
    } else if b[s] == NEWLINE {
        s
    } else {
        line_end(b, s + 1)
    }
}

/// The line that starts at `s`, without its line ending (`\n` or `\r\n`).
pub open spec fn line_text(b: Seq<u8>, s: int) -> Seq<u8> {
    let e = line_end(b, s);
    if e < b.len() && e > s && b[e - 1] == RETURN {
        b.subrange(s, e - 1)
    } else {
        b.subrange(s, e)
    }
}

/// The value a line gives to `key`: the rest of the line after `key` and one
/// space. (A comment line starts with `#`, which no key does.)
pub open spec fn line_value(line: Seq<u8>, key: Seq<u8>) -> Option<Seq<u8>> {
    if line.len() > key.len() && line.take(key.len() as int) == key && line[key.len() as int]
        == SPACE {
        Some(line.skip(key.len() + 1int))
    } else {
        None
    }
}

/// The value of `key` after the lines from `s` on, `acc` being its value before them:
/// the last line that gives one wins.
pub open spec fn value_from(b: Seq<u8>, s: int, key: Seq<u8>, acc: Option<Seq<u8>>) -> Option<
    Seq<u8>,
>
    decreases b.len() - s,
    via value_from_decreases
{
    if s < 0 || s >= b.len() {
        acc
    } else {
        let next = match line_value(line_text(b, s), key) {
            Some(v) => Some(v),
            None => acc,
        };
        if line_end(b, s) >= b.len() {
            next
        } else {
            value_from(b, line_end(b, s) + 1, key, next)
        }
    }
}

/// A line ends at or after its start, and within the text.
pub proof fn lemma_line_end_bounds(b: Seq<u8>, s: int)
    requires
        0 <= s,
    ensures
        s <= line_end(b, s) || s >= b.len(),
        line_end(b, s) <= b.len(),
        s <= b.len() ==> s <= line_end(b, s),
        forall|j: int| s <= j < line_end(b, s) ==> b[j] != NEWLINE,
        line_end(b, s) < b.len() ==> b[line_end(b, s)] == NEWLINE,
    decreases b.len() - s,
{
    if s < b.len() && b[s] != NEWLINE {
        lemma_line_end_bounds(b, s + 1);
    }
}

#[via_fn]
proof fn value_from_decreases(b: Seq<u8>, s: int, key: Seq<u8>, acc: Option<Seq<u8>>) {
    if 0 <= s < b.len() {
        lemma_line_end_bounds(b, s);
    }
}

/// The value that the configuration text `b` gives to `key`.
pub open spec fn config_value(b: Seq<u8>, key: Seq<u8>) -> Option<Seq<u8>> {
    value_from(b, 0, key, None)
}

/// In valid UTF-8, the position after an ASCII byte starts a character.
proof fn lemma_boundary_after_ascii(b: Seq<u8>, i: int)
    requires
        valid_utf8(b),
        0 < i <= b.len(),
        b[i - 1] <= 0x7f,
    ensures
        is_char_boundary(b, i),
{
    if i == b.len() {
        is_char_boundary_start_end_of_seq(b);
    } else {
        is_char_boundary_iff_not_is_continuation_byte(b, i - 1);
        valid_utf8_split(b, i - 1);
        let t = b.subrange(i - 1, b.len() as int);
        assert(t[0] == b[i - 1]);
        assert(t.subrange(1, t.len() as int) =~= b.subrange(i, b.len() as int));
        let u = b.subrange(i, b.len() as int);
        assert(valid_utf8(u));
        assert(u[0] == b[i]);
        assert(!is_continuation_byte(b[i]));
        is_char_boundary_iff_not_is_continuation_byte(b, i);
    }
}

/// In valid UTF-8, an ASCII byte starts a character.
proof fn lemma_boundary_at_ascii(b: Seq<u8>, i: int)
    requires
        valid_utf8(b),
        0 <= i < b.len(),
        b[i] <= 0x7f,
    ensures
        is_char_boundary(b, i),
{
    is_char_boundary_iff_not_is_continuation_byte(b, i);
}

/// The text of `text` from byte `a` to byte `e`.
fn text_between(text: &str, a: usize, e: usize) -> (r: String)
    requires
        a <= e <= text.spec_bytes().len(),
        a == 0 || text.spec_bytes()[a - 1] <= 0x7f,
        e == text.spec_bytes().len() || text.spec_bytes()[e as int] <= 0x7f,
    ensures
        encode_utf8(r@) == text.spec_bytes().subrange(a as int, e as int),
{
    let ghost b = text.spec_bytes();
    proof {
        encode_utf8_valid_utf8(text@);
        if a == 0 {
            is_char_boundary_start_end_of_seq(b);
        } else {
            lemma_boundary_after_ascii(b, a as int);
        }
    }
    let (_, rest) = text.split_at(a);
    let ghost rb = rest.spec_bytes();
    proof {
        encode_utf8_valid_utf8(rest@);
        assert(rb =~= b.subrange(a as int, b.len() as int));
        if e == b.len() {
            is_char_boundary_start_end_of_seq(rb);
        } else {
            assert(rb[e - a] == b[e as int]);
            lemma_boundary_at_ascii(rb, e - a);
        }
    }
    let (mid, _) = rest.split_at(e - a);
    proof {
        assert(mid.spec_bytes() =~= b.subrange(a as int, e as int));
    }
    mid.to_owned()
}

/// The bytes from `a` to `e`, for a range that was found; `None` for none.
pub open spec fn range_value(b: Seq<u8>, r: Option<(usize, usize)>) -> Option<Seq<u8>> {
    match r {
        Some((a, e)) => Some(b.subrange(a as int, e as int)),
        None => None,
    }
}

/// A found range starts after a space and ends at a line ending or the end.
pub open spec fn range_ok(b: Seq<u8>, r: Option<(usize, usize)>) -> bool {
    match r {
        Some((a, e)) => {
            &&& 0 < a <= e <= b.len()
            &&& b[a - 1] == SPACE
            &&& (e == b.len() || b[e as int] == NEWLINE || b[e as int] == RETURN)
        },
        None => true,
    }
}

/// Where the line that starts at `s` ends.
fn find_line_end(b: &[u8], s: usize) -> (e: usize)
    requires
        s <= b@.len(),
    ensures
        e == line_end(b@, s as int),
{
    let mut j = s;
    while j < b.len() && b[j] != NEWLINE
        invariant
            s <= j <= b@.len(),
            line_end(b@, j as int) == line_end(b@, s as int),
        decreases b@.len() - j,
    {
        j = j + 1;
    }
    j
}

/// Where the value that line `b[s..ce]` gives to `key` starts, if it gives one.
fn value_start(b: &[u8], s: usize, ce: usize, key: &Vec<u8>) -> (r: Option<usize>)
    requires
        s <= ce <= b@.len(),
    ensures
        match line_value(b@.subrange(s as int, ce as int), key@) {
            Some(v) => r == Some((s + key@.len() + 1) as usize) && v == b@.subrange(
                s + key@.len() + 1,
                ce as int,
            ),
            None => r is None,
        },
{
    let ghost line = b@.subrange(s as int, ce as int);
    let k = key.len();
    if ce - s <= k {
        return None;
    }
    let mut j: usize = 0;
    while j < k
        invariant
            j <= k,
            k == key@.len(),
            s + k < ce <= b@.len(),
            line == b@.subrange(s as int, ce as int),
            forall|t: int| 0 <= t < j ==> line[t] == key@[t],
        decreases k - j,
    {
        if b[s + j] != key[j] {
            assert(line[j as int] != key@[j as int]);
            assert(line.take(k as int)[j as int] != key@[j as int]);
            return None;
        }
        j = j + 1;
    }
    assert(line.take(k as int) =~= key@);
    if b[s + k] != SPACE {
        return None;
    }
    assert(line.skip(k + 1) =~= b@.subrange(s + k + 1, ce as int));
    Some(s + k + 1)
}

impl Config {
    /// Reads a configuration: lines of a key, one space and a value, the last
    /// line with a key giving its value. Lines that start with `#` and lines
    /// without a space are passed over, as are unknown keys. Fails with the
    /// first of the main font, the mono font, the saves directory and the
    /// assets directory that no line gives.
    pub fn parse(text: &str) -> (r: Result<Config, ConfigLoadError>)
        ensures
            ({
                let b = text.spec_bytes();
                match r {
                    Ok(c) => {
                        &&& config_value(b, main_font_key()) == Some(encode_utf8(c.main_font@))
                        &&& config_value(b, mono_font_key()) == Some(encode_utf8(c.mono_font@))
                        &&& config_value(b, saves_dir_key()) == Some(encode_utf8(c.saves_dir@))
                        &&& config_value(b, assets_dir_key()) == Some(encode_utf8(c.assets_dir@))
                    },
                    Err(ConfigLoadError::NoMainFont) => config_value(b, main_font_key()) is None,
                    Err(ConfigLoadError::NoMonoFont) => {
                        &&& config_value(b, main_font_key()) is Some
                        &&& config_value(b, mono_font_key()) is None
                    },
                    Err(ConfigLoadError::NoSavesDir) => {
                        &&& config_value(b, main_font_key()) is Some
                        &&& config_value(b, mono_font_key()) is Some
                        &&& config_value(b, saves_dir_key()) is None
                    },
                    Err(ConfigLoadError::NoAssetsDir) => {
                        &&& config_value(b, main_font_key()) is Some
                        &&& config_value(b, mono_font_key()) is Some
                        &&& config_value(b, saves_dir_key()) is Some
                        &&& config_value(b, assets_dir_key()) is None
                    },
                    Err(ConfigLoadError::NoConfig(_)) => false,
                }
            }),
    {
        let b = text.as_bytes();
        let ghost bv = b@;
        let main_key: Vec<u8> = vec!['m' as u8, 'a' as u8, 'i' as u8, 'n' as u8, '-' as u8, 'f' as u8, 'o' as u8, 'n' as u8, 't' as u8];
        let mono_key: Vec<u8> = vec!['m' as u8, 'o' as u8, 'n' as u8, 'o' as u8, '-' as u8, 'f' as u8, 'o' as u8, 'n' as u8, 't' as u8];
        let saves_key: Vec<u8> = vec!['s' as u8, 'a' as u8, 'v' as u8, 'e' as u8, 's' as u8, '-' as u8, 'd' as u8, 'i' as u8, 'r' as u8];
        let assets_key: Vec<u8> = vec!['a' as u8, 's' as u8, 's' as u8, 'e' as u8, 't' as u8, 's' as u8, '-' as u8, 'd' as u8, 'i' as u8, 'r' as u8];
        assert(main_key@ =~= main_font_key());
        assert(mono_key@ =~= mono_font_key());
        assert(saves_key@ =~= saves_dir_key());
        assert(assets_key@ =~= assets_dir_key());
        let mut main: Option<(usize, usize)> = None;
        let mut mono: Option<(usize, usize)> = None;
        let mut saves: Option<(usize, usize)> = None;
        let mut assets: Option<(usize, usize)> = None;
        let mut s: usize = 0;
        while s < b.len()
            invariant
                bv == b@,
                bv == text.spec_bytes(),
                s <= bv.len(),
                main_key@ == main_font_key(),
                mono_key@ == mono_font_key(),
                saves_key@ == saves_dir_key(),
                assets_key@ == assets_dir_key(),
                value_from(bv, s as int, main_font_key(), range_value(bv, main)) == config_value(bv, main_font_key()),
                value_from(bv, s as int, mono_font_key(), range_value(bv, mono)) == config_value(bv, mono_font_key()),
                value_from(bv, s as int, saves_dir_key(), range_value(bv, saves)) == config_value(bv, saves_dir_key()),
                value_from(bv, s as int, assets_dir_key(), range_value(bv, assets)) == config_value(bv, assets_dir_key()),
                range_ok(bv, main),
                range_ok(bv, mono),
                range_ok(bv, saves),
                range_ok(bv, assets),
            decreases bv.len() - s,
        {
            let e = find_line_end(b, s);
            proof {
                lemma_line_end_bounds(bv, s as int);
            }
            let ce = if e < b.len() && e > s && b[e - 1] == RETURN {
                e - 1
            } else {
                e
            };
            assert(line_text(bv, s as int) == bv.subrange(s as int, ce as int));
            main = match value_start(b, s, ce, &main_key) {
                Some(a) => Some((a, ce)),
                None => main,
            };
            mono = match value_start(b, s, ce, &mono_key) {
                Some(a) => Some((a, ce)),
                None => mono,
            };
            saves = match value_start(b, s, ce, &saves_key) {
                Some(a) => Some((a, ce)),
                None => saves,
            };
            assets = match value_start(b, s, ce, &assets_key) {
                Some(a) => Some((a, ce)),
                None => assets,
            };
            s = if e >= b.len() {
                b.len()
            } else {
                e + 1
            };
        }
        let main_font = match main {
            Some((a, e)) => text_between(text, a, e),
            None => return Err(ConfigLoadError::NoMainFont),
        };
        let mono_font = match mono {
            Some((a, e)) => text_between(text, a, e),
            None => return Err(ConfigLoadError::NoMonoFont),
        };
        let saves_dir = match saves {
            Some((a, e)) => text_between(text, a, e),
            None => return Err(ConfigLoadError::NoSavesDir),
        };
        let assets_dir = match assets {
            Some((a, e)) => text_between(text, a, e),
            None => return Err(ConfigLoadError::NoAssetsDir),
        };
        Ok(Config { main_font, mono_font, saves_dir, assets_dir })
    }
}

} // verus!
