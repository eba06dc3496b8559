//! The grammar of INI configuration text.
//!
//! ```ini
//! key=value          ; a key outside any section
//! [section]
//! key=value          ; a key of that section, named `section.key`
//! # comment
//! ; comment
//! ```
//! Section names and keys are lower-cased; values are kept as written, trimmed.
use vstd::prelude::*;
use vstd::string::{StringExecFns, StringSliceAdditionalSpecFns};
use vstd::utf8::{decode_utf8, encode_utf8};

use crate::parser::{
    first_byte, has_byte, is_word, parse_u64, parse_u64_spec, split_at_byte, token_views, trim,
    trimmed,
};

verus! {

broadcast use vstd::utf8::encode_utf8_valid_utf8, vstd::utf8::encode_utf8_decode_utf8;

/// What `str::to_lowercase` makes of a text: each character's Unicode lowercase mapping.
pub uninterp spec fn lowercase_of(s: Seq<char>) -> Seq<char>;

/// `str::to_lowercase`.
#[verifier::external_body]
fn to_lowercase(s: &str) -> (r: String)
    ensures
        r@ == lowercase_of(s@),
{
    s.to_lowercase()
}

/// The full name `section.key` of a key in a section.
fn dotted(section: &str, key: &str) -> (r: String)
    ensures
        r@ == section@ + seq!['.'] + key@,
{
    let mut r = String::from_str(section);
    let dot = ".";
    proof {
        reveal_strlit(".");
    }
    r.append(dot);
    r.append(key);
    r
}

/// One line of INI text, its texts trimmed.
pub enum IniLine<'a> {
    /// Blank, a comment, or neither a section header nor a `key=value` line.
    Skip,
    Section(&'a str),
    Entry(&'a str, &'a str),
}

pub enum IniLineView {
    Skip,
    Section(Seq<char>),
    Entry(Seq<char>, Seq<char>),
}

impl<'a> View for IniLine<'a> {
    type V = IniLineView;

    open spec fn view(&self) -> IniLineView {
        match *self {
            IniLine::Skip => IniLineView::Skip,
            IniLine::Section(s) => IniLineView::Section(s@),
            IniLine::Entry(k, v) => IniLineView::Entry(k@, v@),
        }
    }
}

/// How a line reads, once trimmed: empty or starting with `#` or `;` it is
/// skipped; `[name]` opens section `name`; otherwise its first `=` separates a
/// key from a value; a line with no `=` is skipped.
pub open spec fn ini_line(line: Seq<char>) -> IniLineView {
    let b = encode_utf8(trimmed(line));
    if b.len() == 0 || b[0] == 35 || b[0] == 59 {
        IniLineView::Skip
    } else if b[0] == 91 && b[b.len() - 1] == 93 {
        IniLineView::Section(trimmed(decode_utf8(b.subrange(1, b.len() - 1))))
    } else if has_byte(b, 61) {
        let e = first_byte(b, 61);
        IniLineView::Entry(trimmed(decode_utf8(b.take(e))), trimmed(decode_utf8(b.skip(e + 1))))
    } else {
        IniLineView::Skip
    }
}

/// Read one line of INI text.
pub fn classify_ini_line(line: &str) -> (r: IniLine)
    ensures
        r@ == ini_line(line@),
{
    let t = trim(line);
    let b = t.as_bytes();
    let n = b.len();
    assert(b@ == encode_utf8(trimmed(line@)));
    if n == 0 || b[0] == 35 || b[0] == 59 {
        return IniLine::Skip;
    }
    if b[0] == 91 && b[n - 1] == 93 {
        proof {
            reveal_with_fuel(vstd::utf8::is_char_boundary, 2);
            assert(vstd::utf8::length_of_first_scalar(b@) == 1);
            assert(vstd::utf8::is_char_boundary(b@, 1));
        }
        let (_open, after_open) = t.split_at(1);
        proof {
            let ab = after_open.spec_bytes();
            assert(ab =~= b@.skip(1));
            assert(ab[n - 2] == 93);
            vstd::utf8::is_char_boundary_iff_not_is_continuation_byte(ab, n - 2);
        }
        let (inner, _close) = after_open.split_at(n - 2);
        assert(inner.spec_bytes() =~= b@.subrange(1, n - 1));
        assert(inner@ == decode_utf8(inner.spec_bytes()));
        return IniLine::Section(trim(inner));
    }
    match split_at_byte(t, 61) {
        Some((k, v)) => {
            assert(k@ == decode_utf8(k.spec_bytes()));
            assert(v@ == decode_utf8(v.spec_bytes()));
            IniLine::Entry(trim(k), trim(v))
        },
        None => IniLine::Skip,
    }
}

/// The full name of a key: `section.key`, or just `key` outside any section.
pub open spec fn full_key(section: Seq<char>, key: Seq<char>) -> Seq<char> {
    if section.len() == 0 {
        key
    } else {
        section + seq!['.'] + key
    }
}

/// The `(full key, value)` entries of INI lines in order, the current section
/// (lower-cased) starting as `section`.
pub open spec fn ini_entries(lines: Seq<Seq<char>>, section: Seq<char>) -> Seq<(Seq<char>, Seq<char>)>
    decreases lines.len(),
{
    if lines.len() == 0 {
        Seq::empty()
    } else {
        match ini_line(lines[0]) {
            IniLineView::Skip => ini_entries(lines.drop_first(), section),
            IniLineView::Section(name) => ini_entries(lines.drop_first(), lowercase_of(name)),
            IniLineView::Entry(k, v) => seq![(full_key(section, lowercase_of(k)), v)]
                + ini_entries(lines.drop_first(), section),
        }
    }
}

pub open spec fn entry_views(s: Seq<(String, String)>) -> Seq<(Seq<char>, Seq<char>)> {
    s.map_values(|e: (String, String)| (e.0@, e.1@))
}

/// The `(full key, value)` entries of INI text given line by line, in order;
/// where a key repeats, the later entry is the one that counts.
pub fn parse_ini_lines(lines: &Vec<&str>) -> (r: Vec<(String, String)>)
    ensures
        entry_views(r@) == ini_entries(token_views(lines@), Seq::empty()),
{
    let ghost all = token_views(lines@);
    let mut out: Vec<(String, String)> = Vec::new();
    let mut section = String::new();
    let mut i: usize = 0;
    assert(all.skip(0) =~= all);
    assert(entry_views(out@) =~= Seq::<(Seq<char>, Seq<char>)>::empty());
    while i < lines.len()
        invariant
            i <= lines@.len(),
            all == token_views(lines@),
            entry_views(out@) + ini_entries(all.skip(i as int), section@) == ini_entries(
                all,
                Seq::empty(),
            ),
        decreases lines@.len() - i,
    {
        let ghost rest = all.skip(i as int);
        assert(rest[0] == lines@[i as int]@);
        assert(rest.drop_first() =~= all.skip(i as int + 1));
        match classify_ini_line(lines[i]) {
            IniLine::Skip => {},
            IniLine::Section(name) => {
                section = to_lowercase(name);
            },
            IniLine::Entry(k, v) => {
                let key = to_lowercase(k);
                let full = if section.as_str().is_empty() {
                    key
                } else {
                    dotted(section.as_str(), key.as_str())
                };
                let ghost before = entry_views(out@);
                out.push((full, v.to_owned()));
                assert(entry_views(out@) =~= before + seq![(full@, v@)]);
                assert(full@ == full_key(section@, lowercase_of(k@)));
            },
        }
        i = i + 1;
    }
    assert(all.skip(lines@.len() as int) =~= Seq::<Seq<char>>::empty());
    assert(entry_views(out@) + Seq::<(Seq<char>, Seq<char>)>::empty() =~= entry_views(out@));
    out
}

/// The value of the last entry named `key`, if any entry has that name.
pub open spec fn last_value(entries: Seq<(Seq<char>, Seq<char>)>, key: Seq<char>) -> Option<
    Seq<char>,
>
    decreases entries.len(),
{
    if entries.len() == 0 {
        None
    } else if entries.last().0 == key {
        Some(entries.last().1)
    } else {
        last_value(entries.drop_last(), key)
    }
}

/// Look a key up among INI entries; where a key repeats, the later entry wins.
pub fn ini_value<'a>(entries: &'a Vec<(String, String)>, key: &str) -> (r: Option<&'a str>)
    ensures
        r matches Some(v) ==> last_value(entry_views(entries@), key@) == Some(v@),
        r is None ==> last_value(entry_views(entries@), key@) is None,
{
    let wanted = key.to_owned();
    let ghost all = entry_views(entries@);
    let mut i = entries.len();
    assert(all.take(i as int) =~= all);
    while i > 0
        invariant
            i <= entries@.len(),
            all == entry_views(entries@),
            wanted@ == key@,
            last_value(all, key@) == last_value(all.take(i as int), key@),
        decreases i,
    {
        i = i - 1;
        let ghost t = all.take(i as int + 1);
        assert(t.drop_last() =~= all.take(i as int));
        assert(t.last() == (entries@[i as int].0@, entries@[i as int].1@));
        if entries[i].0 == wanted {
            return Some(entries[i].1.as_str());
        }
    }
    None
}

// ── Typed values ─────────────────────────────────────────────────────────────

/// A value reads as `true` when, lower-cased, it is `true`, `1` or `yes`.
pub open spec fn is_true_value(v: Seq<char>) -> bool {
    let b = encode_utf8(lowercase_of(v));
    b == seq![116u8, 114, 117, 101] || b == seq![49u8] || b == seq![121u8, 101, 115]
}

/// Whether a value reads as `true` (see `is_true_value`).
pub fn read_bool(v: &str) -> (b: bool)
    ensures
        b == is_true_value(v@),
{
    let lower = to_lowercase(v);
    let bytes = lower.as_str().as_bytes();
    let t: [u8; 4] = [116, 114, 117, 101];
    let one: [u8; 1] = [49];
    let yes: [u8; 3] = [121, 101, 115];
    assert(t@ =~= seq![116u8, 114, 117, 101]);
    assert(one@ =~= seq![49u8]);
    assert(yes@ =~= seq![121u8, 101, 115]);
    is_word(bytes, t.as_slice()) || is_word(bytes, one.as_slice()) || is_word(bytes, yes.as_slice())
}

/// An unsigned number no larger than `max`, read as `parse_u64_spec` reads.
pub open spec fn bounded_value(b: Seq<u8>, max: u64) -> Option<u64> {
    match parse_u64_spec(b) {
        Some(v) => if v <= max {
            Some(v)
        } else {
            None
        },
        None => None,
    }
}

/// Read a 16-bit unsigned number.
pub fn read_u16(v: &str) -> (r: Option<u16>)
    ensures
        r matches Some(x) ==> bounded_value(v.spec_bytes(), 0xffff) == Some(x as u64),
        r is None ==> bounded_value(v.spec_bytes(), 0xffff) is None,
{
    match parse_u64(v) {
        Some(x) => if x <= 0xffff {
            Some(x as u16)
        } else {
            None
        },
        None => None,
    }
}

/// Read a 32-bit unsigned number.
pub fn read_u32(v: &str) -> (r: Option<u32>)
    ensures
        r matches Some(x) ==> bounded_value(v.spec_bytes(), 0xffff_ffff) == Some(x as u64),
        r is None ==> bounded_value(v.spec_bytes(), 0xffff_ffff) is None,
{
    match parse_u64(v) {
        Some(x) => if x <= 0xffff_ffff {
            Some(x as u32)
        } else {
            None
        },
        None => None,
    }
}

/// How a signed 32-bit number is read: `-` and then one or more digits, whose
/// value is at most 2^31; or an unsigned number (with an optional `+`) of at
/// most 2^31 - 1.
pub open spec fn i32_value(b: Seq<u8>) -> Option<i32> {
    if b.len() > 0 && b[0] == 45 {
        let d = b.drop_first();
        if d.len() > 0 && d[0] != 43 && parse_u64_spec(d) is Some && parse_u64_spec(d)->0
            <= 0x8000_0000 {
            Some((0 - parse_u64_spec(d)->0) as i32)
        } else {
            None
        }
    } else {
        match bounded_value(b, 0x7fff_ffff) {
            Some(x) => Some(x as i32),
            None => None,
        }
    }
}

/// Read a 32-bit signed number (see `i32_value`).
pub fn read_i32(v: &str) -> (r: Option<i32>)
    ensures
        r == i32_value(v.spec_bytes()),
{
    let b = v.as_bytes();
    if b.len() > 0 && b[0] == 45 {
        proof {
            assert(vstd::utf8::length_of_first_scalar(b@) == 1);
            reveal_with_fuel(vstd::utf8::is_char_boundary, 2);
            assert(vstd::utf8::is_char_boundary(b@, 1));
        }
        let (_minus, digits) = v.split_at(1);
        assert(digits.spec_bytes() =~= b@.drop_first());
        let db = digits.as_bytes();
        if db.len() == 0 || db[0] == 43 {
            return None;
        }
        match parse_u64(digits) {
            Some(x) => if x <= 0x8000_0000 {
                let m = x as i64;
                Some((0 - m) as i32)
            } else {
                None
            },
            None => None,
        }
    } else {
        match parse_u64(v) {
            Some(x) => if x <= 0x7fff_ffff {
                Some(x as i32)
            } else {
                None
            },
            None => None,
        }
    }
}

/// The non-empty trimmed pieces of a comma-separated list, in order.
pub open spec fn list_items(b: Seq<u8>) -> Seq<Seq<char>>
    decreases b.len(),
{
    if has_byte(b, 44) {
        let c = first_byte(b, 44);
        let item = trimmed(decode_utf8(b.take(c)));
        let rest = list_items(b.skip(c + 1));
        if item.len() == 0 {
            rest
        } else {
            seq![item] + rest
        }
    } else {
        let item = trimmed(decode_utf8(b));
        if item.len() == 0 {
            Seq::empty()
        } else {
            seq![item]
        }
    }
}

/// Split a comma-separated list into its non-empty trimmed items.
pub fn read_list(v: &str) -> (r: Vec<String>)
    ensures
        r@.map_values(|s: String| s@) == list_items(v.spec_bytes()),
    decreases v.spec_bytes().len(),
{
    match split_at_byte(v, 44) {
        Some((head, tail)) => {
            let item = trim(head);
            let rest = read_list(tail);
            assert(head@ == decode_utf8(head.spec_bytes()));
            if item.is_empty() {
                rest
            } else {
                let mut out: Vec<String> = Vec::new();
                out.push(item.to_owned());
                let mut i: usize = 0;
                while i < rest.len()
                    invariant
                        i <= rest@.len(),
                        out@.len() == i + 1,
                        out@[0]@ == item@,
                        forall|j: int| 0 <= j < i ==> (#[trigger] out@[j + 1])@ == rest@[j]@,
                    decreases rest@.len() - i,
                {
                    out.push(rest[i].clone());
                    i = i + 1;
                }
                assert forall|j: int| #![trigger out@[j]] 0 <= j < out@.len() implies out@.map_values(
                    |s: String| s@,
                )[j] == (seq![item@] + rest@.map_values(|s: String| s@))[j] by {
                    if j > 0 {
                        assert(out@[(j - 1) + 1]@ == rest@[j - 1]@);
                    }
                }
                assert(out@.map_values(|s: String| s@) =~= seq![item@] + rest@.map_values(
                    |s: String| s@,
                ));
                out
            }
        },
        None => {
            let item = trim(v);
            assert(v@ == decode_utf8(v.spec_bytes()));
            let mut out: Vec<String> = Vec::new();
            if !item.is_empty() {
                out.push(item.to_owned());
            }
            assert(out@.map_values(|s: String| s@) =~= list_items(v.spec_bytes()));
            out
        },
    }
}

// ── Settings ─────────────────────────────────────────────────────────────────

/// A text setting: the value of the last entry named so, or the default.
pub open spec fn text_setting(v: Option<Seq<char>>, default: Seq<char>) -> Seq<char> {
    match v {
        Some(t) => t,
        None => default,
    }
}

/// A 16-bit setting: the value read as `read_u16` reads it, or the default when
/// the entry is missing or does not read.
pub open spec fn u16_setting(v: Option<Seq<char>>, default: u16) -> u16 {
    match v {
        Some(t) => match bounded_value(encode_utf8(t), 0xffff) {
            Some(x) => x as u16,
            None => default,
        },
        None => default,
    }
}

/// A 32-bit unsigned setting (see `u16_setting`).
pub open spec fn u32_setting(v: Option<Seq<char>>, default: u32) -> u32 {
    match v {
        Some(t) => match bounded_value(encode_utf8(t), 0xffff_ffff) {
            Some(x) => x as u32,
            None => default,
        },
        None => default,
    }
}

/// A 32-bit signed setting (see `i32_value`).
pub open spec fn i32_setting(v: Option<Seq<char>>, default: i32) -> i32 {
    match v {
        Some(t) => match i32_value(encode_utf8(t)) {
            Some(x) => x,
            None => default,
        },
        None => default,
    }
}

/// A yes/no setting (see `is_true_value`).
pub open spec fn bool_setting(v: Option<Seq<char>>, default: bool) -> bool {
    match v {
        Some(t) => is_true_value(t),
        None => default,
    }
}

/// Every setting the program reads but the processor speed, which is a
/// floating-point number.
pub struct Settings {
    pub exchange_name: String,
    pub data_type: String,
    pub symbol_file: String,
    pub data_files: Vec<String>,
    pub num_random_orders: u32,
    pub consumer_ip: String,
    pub consumer_port: u16,
    pub consumer_core: i32,
    pub producer_port: u16,
    pub producer_core: i32,
    pub producer_rate: i32,
    pub perf_enabled: bool,
    pub perf_output_file: String,
}

fn text_or(entries: &Vec<(String, String)>, key: &str, default: &str) -> (r: String)
    ensures
        r@ == text_setting(last_value(entry_views(entries@), key@), default@),
{
    match ini_value(entries, key) {
        Some(v) => v.to_owned(),
        None => default.to_owned(),
    }
}

fn u16_or(entries: &Vec<(String, String)>, key: &str, default: u16) -> (r: u16)
    ensures
        r == u16_setting(last_value(entry_views(entries@), key@), default),
{
    match ini_value(entries, key) {
        Some(v) => match read_u16(v) {
            Some(x) => x,
            None => default,
        },
        None => default,
    }
}

fn u32_or(entries: &Vec<(String, String)>, key: &str, default: u32) -> (r: u32)
    ensures
        r == u32_setting(last_value(entry_views(entries@), key@), default),
{
    match ini_value(entries, key) {
        Some(v) => match read_u32(v) {
            Some(x) => x,
            None => default,
        },
        None => default,
    }
}

fn i32_or(entries: &Vec<(String, String)>, key: &str, default: i32) -> (r: i32)
    ensures
        r == i32_setting(last_value(entry_views(entries@), key@), default),
{
    match ini_value(entries, key) {
        Some(v) => match read_i32(v) {
            Some(x) => x,
            None => default,
        },
        None => default,
    }
}

fn bool_or(entries: &Vec<(String, String)>, key: &str, default: bool) -> (r: bool)
    ensures
        r == bool_setting(last_value(entry_views(entries@), key@), default),
{
    match ini_value(entries, key) {
        Some(v) => read_bool(v),
        None => default,
    }
}

/// The settings that INI entries give, each from the last entry of its key, or
/// its default when the entry is missing or does not read.
pub fn settings_from_entries(entries: &Vec<(String, String)>) -> (s: Settings)
    ensures
        ({
            let e = entry_views(entries@);
            &&& s.exchange_name@ == text_setting(last_value(e, "exchange_name"@), "Exchange"@)
            &&& s.data_type@ == text_setting(last_value(e, "data.type"@), "file"@)
            &&& s.symbol_file@ == text_setting(last_value(e, "data.symbol_file"@), "Symbols.txt"@)
            &&& s.data_files@.map_values(|f: String| f@) == list_items(
                encode_utf8(text_setting(last_value(e, "data.market_data_files"@), ""@)),
            )
            &&& s.num_random_orders == u32_setting(last_value(e, "data.n"@), 1000)
            &&& s.consumer_ip@ == text_setting(last_value(e, "consumer.ip"@), "127.0.0.1"@)
            &&& s.consumer_port == u16_setting(last_value(e, "consumer.port"@), 1234)
            &&& s.consumer_core == i32_setting(last_value(e, "consumer.core"@), -1i32)
            &&& s.producer_port == u16_setting(last_value(e, "producer.port"@), 1234)
            &&& s.producer_core == i32_setting(last_value(e, "producer.core"@), -1i32)
            &&& s.producer_rate == i32_setting(last_value(e, "producer.rate"@), -1i32)
            &&& s.perf_enabled == bool_setting(last_value(e, "perf.enabled"@), false)
            &&& s.perf_output_file@ == text_setting(last_value(e, "perf.outfile"@), "perf.csv"@)
        }),
{
    let files = text_or(entries, "data.market_data_files", "");
    Settings {
        exchange_name: text_or(entries, "exchange_name", "Exchange"),
        data_type: text_or(entries, "data.type", "file"),
        symbol_file: text_or(entries, "data.symbol_file", "Symbols.txt"),
        data_files: read_list(files.as_str()),
        num_random_orders: u32_or(entries, "data.n", 1000),
        consumer_ip: text_or(entries, "consumer.ip", "127.0.0.1"),
        consumer_port: u16_or(entries, "consumer.port", 1234),
        consumer_core: i32_or(entries, "consumer.core", -1),
        producer_port: u16_or(entries, "producer.port", 1234),
        producer_core: i32_or(entries, "producer.core", -1),
        producer_rate: i32_or(entries, "producer.rate", -1),
        perf_enabled: bool_or(entries, "perf.enabled", false),
        perf_output_file: text_or(entries, "perf.outfile", "perf.csv"),
    }
}

} // verus!
