//! Receiving files over DM streams: validating transfers, naming the saved
//! file, throttling progress reports, and the bookkeeping of transfers in
//! flight.

use vstd::prelude::*;

use crate::keyed::{
    find_key, key_map, keys_distinct, lemma_key_map_at, lemma_key_map_len, lemma_key_map_push,
    lemma_key_map_remove, lemma_key_map_update,
};
use crate::text::{chars_of, decimal, push_decimal, push_str, string_of};
use vstd::string::StringSliceAdditionalSpecFns;

verus! {

broadcast use vstd::seq_lib::group_filter_ensures;

/// Emit a progress event at most every this many bytes...
pub const FILE_PROGRESS_MIN_BYTES: u64 = 1048576;

/// ...or this often (milliseconds), whichever comes first; the first and
/// final ones are always sent.
pub const FILE_PROGRESS_MIN_INTERVAL_MS: u64 = 100;

/// Maximum size a peer may declare for an inbound transfer.
pub const MAX_INCOMING_FILE_SIZE: u64 = 104857600;

/// Bound on concurrent inbound transfers on one stream.
pub const MAX_CONCURRENT_TRANSFERS: usize = 16;

/// Whether a progress event is due: the first one, the final one, or once
/// enough bytes or enough time went by since the last one.
pub open spec fn should_emit_file_progress_spec(
    received: u64,
    expected: u64,
    last_bytes: u64,
    since_last_ms: u64,
) -> bool {
    last_bytes == 0 || received >= expected || received - last_bytes >= FILE_PROGRESS_MIN_BYTES
        || since_last_ms >= FILE_PROGRESS_MIN_INTERVAL_MS
}

pub fn should_emit_file_progress(
    received: u64,
    expected: u64,
    last_bytes: u64,
    since_last_ms: u64,
) -> (b: bool)
    ensures
        b == should_emit_file_progress_spec(received, expected, last_bytes, since_last_ms),
{
    last_bytes == 0 || received >= expected || received.saturating_sub(last_bytes)
        >= FILE_PROGRESS_MIN_BYTES || since_last_ms >= FILE_PROGRESS_MIN_INTERVAL_MS
}

pub open spec fn transfer_id_byte_ok(b: u8) -> bool {
    (0x30 <= b <= 0x39) || (0x41 <= b <= 0x5a) || (0x61 <= b <= 0x7a) || b == 0x2d || b == 0x5f
}

/// A transfer id is 1 to 64 bytes of ASCII letters, digits, `-` and `_`.
pub open spec fn valid_transfer_id_spec(bytes: Seq<u8>) -> bool {
    &&& bytes.len() > 0
    &&& bytes.len() <= 64
    &&& forall|i: int| 0 <= i < bytes.len() ==> transfer_id_byte_ok(#[trigger] bytes[i])
}

/// Transfer ids are echoed to the frontend and used as map keys; anything
/// outside a UUID-like charset is rejected as a protocol violation.
pub fn is_valid_transfer_id(id: &str) -> (b: bool)
    ensures
        b == valid_transfer_id_spec(id.spec_bytes()),
{
    let bytes = id.as_bytes();
    if bytes.len() == 0 || bytes.len() > 64 {
        return false;
    }
    let mut i: usize = 0;
    while i < bytes.len()
        invariant
            i <= bytes@.len(),
            bytes@ == id.spec_bytes(),
            forall|j: int| 0 <= j < i ==> transfer_id_byte_ok(#[trigger] bytes@[j]),
        decreases bytes@.len() - i,
    {
        let b = bytes[i];
        if !((b >= 0x30 && b <= 0x39) || (b >= 0x41 && b <= 0x5a) || (b >= 0x61 && b <= 0x7a) || b
            == 0x2d || b == 0x5f) {
            assert(!transfer_id_byte_ok(bytes@[i as int]));
            return false;
        }
        i = i + 1;
    }
    true
}

pub open spec fn is_path_sep(c: char) -> bool {
    c == '/' || c == '\\'
}

/// The characters after the last `/` or `\` (all of `s` when there is none).
pub open spec fn after_last_sep(s: Seq<char>) -> Seq<char>
    decreases s.len(),
{
    if s.len() == 0 {
        s
    } else if is_path_sep(s.last()) {
        Seq::empty()
    } else {
        after_last_sep(s.drop_last()).push(s.last())
    }
}

/// Unicode control codes (general category Cc).
pub open spec fn is_control_char(c: char) -> bool {
    (c as u32) <= 0x1f || (0x7f <= (c as u32) && (c as u32) <= 0x9f)
}

pub open spec fn not_control() -> spec_fn(char) -> bool {
    |c: char| !is_control_char(c)
}

/// Characters Windows forbids in file names.
pub open spec fn is_forbidden_char(c: char) -> bool {
    c == '<' || c == '>' || c == ':' || c == '"' || c == '|' || c == '?' || c == '*'
}

pub open spec fn replace_forbidden(c: char) -> char {
    if is_forbidden_char(c) {
        '_'
    } else {
        c
    }
}

/// At most the first 200 non-control characters, with forbidden ones
/// replaced by `_`.
pub open spec fn cleaned_name(base: Seq<char>) -> Seq<char> {
    let f = base.filter(not_control()).map_values(|c: char| replace_forbidden(c));
    if f.len() > 200 {
        f.take(200)
    } else {
        f
    }
}

pub open spec fn is_dot_or_space(c: char) -> bool {
    c == '.' || c == ' '
}

/// `s` without its leading dots and spaces.
pub open spec fn trim_start_dots_spaces(s: Seq<char>) -> Seq<char>
    decreases s.len(),
{
    if s.len() > 0 && is_dot_or_space(s[0]) {
        trim_start_dots_spaces(s.drop_first())
    } else {
        s
    }
}

/// `s` without its trailing dots and spaces.
pub open spec fn trim_end_dots_spaces(s: Seq<char>) -> Seq<char>
    decreases s.len(),
{
    if s.len() > 0 && is_dot_or_space(s.last()) {
        trim_end_dots_spaces(s.drop_last())
    } else {
        s
    }
}

/// `s` without its trailing spaces.
pub open spec fn trim_end_spaces(s: Seq<char>) -> Seq<char>
    decreases s.len(),
{
    if s.len() > 0 && s.last() == ' ' {
        trim_end_spaces(s.drop_last())
    } else {
        s
    }
}

/// The characters before the first `.` (all of `s` when there is none).
pub open spec fn before_first_dot(s: Seq<char>) -> Seq<char>
    decreases s.len(),
{
    if s.len() == 0 {
        s
    } else if s[0] == '.' {
        Seq::empty()
    } else {
        seq![s[0]] + before_first_dot(s.drop_first())
    }
}

pub open spec fn ascii_upper(c: char) -> char {
    if 'a' <= c && c <= 'z' {
        ((c as u32) - 32) as char
    } else {
        c
    }
}

/// Whether a file name denotes a Windows device: `CON`, `PRN`, `AUX`,
/// `NUL`, `COM1`-`COM9` or `LPT1`-`LPT9`, in any case, with or without an
/// extension, and with trailing spaces before the extension ignored.
pub open spec fn windows_reserved_spec(name: Seq<char>) -> bool {
    let up = trim_end_spaces(before_first_dot(name)).map_values(|c: char| ascii_upper(c));
    ||| up == seq!['C', 'O', 'N']
    ||| up == seq!['P', 'R', 'N']
    ||| up == seq!['A', 'U', 'X']
    ||| up == seq!['N', 'U', 'L']
    ||| (up.len() == 4 && (up.take(3) == seq!['C', 'O', 'M'] || up.take(3) == seq!['L', 'P', 'T'])
        && '1' <= up[3] && up[3] <= '9')
}

/// The name a received file is saved under: the base name after the last
/// separator, cleaned, trimmed of dots and spaces at both ends; `download`
/// when nothing is left, and `_` in front of a Windows device name.
pub open spec fn sanitize_spec(name: Seq<char>) -> Seq<char> {
    let t = trim_end_dots_spaces(trim_start_dots_spaces(cleaned_name(after_last_sep(name))));
    if t.len() == 0 {
        seq!['d', 'o', 'w', 'n', 'l', 'o', 'a', 'd']
    } else if windows_reserved_spec(t) {
        seq!['_'] + t
    } else {
        t
    }
}

/// A character a saved file name may hold: no path separator, no control
/// character, nothing Windows forbids.
pub open spec fn safe_name_char(c: char) -> bool {
    !is_path_sep(c) && !is_control_char(c) && !is_forbidden_char(c)
}

proof fn lemma_after_last_sep_has_no_sep(s: Seq<char>)
    ensures
        forall|i: int|
            0 <= i < after_last_sep(s).len() ==> !is_path_sep(#[trigger] after_last_sep(s)[i]),
    decreases s.len(),
{
    if s.len() > 0 && !is_path_sep(s.last()) {
        lemma_after_last_sep_has_no_sep(s.drop_last());
        let r = after_last_sep(s.drop_last());
        assert forall|i: int| 0 <= i < r.push(s.last()).len() implies !is_path_sep(
            #[trigger] r.push(s.last())[i],
        ) by {
            if i < r.len() {
                assert(r.push(s.last())[i] == r[i]);
            }
        }
    }
}

proof fn lemma_cleaned_is_safe(base: Seq<char>)
    requires
        forall|i: int| 0 <= i < base.len() ==> !is_path_sep(#[trigger] base[i]),
    ensures
        forall|i: int|
            0 <= i < cleaned_name(base).len() ==> safe_name_char(#[trigger] cleaned_name(base)[i]),
        cleaned_name(base).len() <= 200,
{
    broadcast use vstd::seq_lib::group_filter_ensures;

    let f = base.filter(not_control());
    let m = f.map_values(|c: char| replace_forbidden(c));
    assert forall|i: int| 0 <= i < m.len() implies safe_name_char(#[trigger] m[i]) by {
        assert(not_control()(f[i]));
        assert(f.contains(f[i]));
        base.lemma_filter_contains_rev(not_control(), f[i]);
        let j = choose|j: int| 0 <= j < base.len() && base[j] == f[i];
        assert(!is_path_sep(base[j]));
    }
    if m.len() > 200 {
        assert forall|i: int| 0 <= i < m.take(200).len() implies safe_name_char(
            #[trigger] m.take(200)[i],
        ) by {
            assert(m.take(200)[i] == m[i]);
        }
    }
}

proof fn lemma_trim_start_keeps(s: Seq<char>, p: spec_fn(char) -> bool)
    requires
        forall|i: int| 0 <= i < s.len() ==> p(#[trigger] s[i]),
    ensures
        forall|i: int|
            0 <= i < trim_start_dots_spaces(s).len() ==> p(#[trigger] trim_start_dots_spaces(s)[i]),
        trim_start_dots_spaces(s).len() > 0 ==> !is_dot_or_space(trim_start_dots_spaces(s)[0]),
    decreases s.len(),
{
    if s.len() > 0 && is_dot_or_space(s[0]) {
        assert forall|i: int| 0 <= i < s.drop_first().len() implies p(#[trigger] s.drop_first()[i]) by {
            assert(s.drop_first()[i] == s[i + 1]);
        }
        lemma_trim_start_keeps(s.drop_first(), p);
    }
}

proof fn lemma_trim_end_prefix(s: Seq<char>)
    ensures
        trim_end_dots_spaces(s).len() <= s.len(),
        trim_end_dots_spaces(s) == s.take(trim_end_dots_spaces(s).len() as int),
        trim_end_dots_spaces(s).len() > 0 ==> !is_dot_or_space(trim_end_dots_spaces(s).last()),
    decreases s.len(),
{
    if s.len() > 0 && is_dot_or_space(s.last()) {
        lemma_trim_end_prefix(s.drop_last());
        let t = trim_end_dots_spaces(s.drop_last());
        assert(s.drop_last().take(t.len() as int) =~= s.take(t.len() as int));
    } else {
        assert(s.take(s.len() as int) =~= s);
    }
}

proof fn lemma_before_first_dot_plain(s: Seq<char>)
    requires
        forall|i: int| 0 <= i < s.len() ==> #[trigger] s[i] != '.',
    ensures
        before_first_dot(s) == s,
    decreases s.len(),
{
    if s.len() > 0 {
        assert forall|i: int| 0 <= i < s.drop_first().len() implies #[trigger] s.drop_first()[i]
            != '.' by {
            assert(s.drop_first()[i] == s[i + 1]);
        }
        lemma_before_first_dot_plain(s.drop_first());
        assert(seq![s[0]] + s.drop_first() =~= s);
    }
}

proof fn lemma_trim_end_spaces_keeps_first(s: Seq<char>)
    requires
        s.len() > 0,
        s[0] != ' ',
    ensures
        trim_end_spaces(s).len() > 0,
        trim_end_spaces(s)[0] == s[0],
    decreases s.len(),
{
    if s.last() == ' ' {
        assert(s.len() > 1);
        assert(s.drop_last()[0] == s[0]);
        lemma_trim_end_spaces_keeps_first(s.drop_last());
    }
}

proof fn lemma_underscore_prefix_not_reserved(t: Seq<char>)
    ensures
        !windows_reserved_spec(seq!['_'] + t),
{
    let n = seq!['_'] + t;
    assert(n.drop_first() =~= t);
    let b = before_first_dot(n);
    assert(b == seq!['_'] + before_first_dot(t));
    lemma_trim_end_spaces_keeps_first(b);
    let up = trim_end_spaces(b).map_values(|c: char| ascii_upper(c));
    assert(up[0] == '_');
    if up.len() == 4 {
        assert(up.take(3)[0] == '_');
    }
    assert(up != seq!['C', 'O', 'N']);
    assert(up != seq!['P', 'R', 'N']);
    assert(up != seq!['A', 'U', 'X']);
    assert(up != seq!['N', 'U', 'L']);
    if up.len() == 4 {
        assert(up.take(3) != seq!['C', 'O', 'M']);
        assert(up.take(3) != seq!['L', 'P', 'T']);
    }
}

/// A sanitized name is safe to save under in the downloads directory on
/// every platform: never empty, free of path separators, control characters
/// and the characters Windows forbids, not starting or ending with a dot or
/// a space, and never a Windows device name.
pub proof fn lemma_sanitized_name_is_safe(name: Seq<char>)
    ensures
        sanitize_spec(name).len() > 0,
        forall|i: int|
            0 <= i < sanitize_spec(name).len() ==> safe_name_char(#[trigger] sanitize_spec(name)[i]),
        !is_dot_or_space(sanitize_spec(name)[0]),
        !is_dot_or_space(sanitize_spec(name).last()),
        !windows_reserved_spec(sanitize_spec(name)),
{
    let base = after_last_sep(name);
    lemma_after_last_sep_has_no_sep(name);
    lemma_cleaned_is_safe(base);
    let c = cleaned_name(base);
    let p = |ch: char| safe_name_char(ch);
    lemma_trim_start_keeps(c, p);
    let ts = trim_start_dots_spaces(c);
    lemma_trim_end_prefix(ts);
    let t = trim_end_dots_spaces(ts);
    assert forall|i: int| 0 <= i < t.len() implies safe_name_char(#[trigger] t[i]) by {
        assert(t[i] == ts.take(t.len() as int)[i]);
        assert(p(ts[i]));
    }
    if t.len() > 0 {
        assert(t[0] == ts[0]);
    }
    let out = sanitize_spec(name);
    if t.len() == 0 {
        let d = seq!['d', 'o', 'w', 'n', 'l', 'o', 'a', 'd'];
        assert(out == d);
        lemma_before_first_dot_plain(d);
        assert(trim_end_spaces(d) == d);
        assert(d.map_values(|c: char| ascii_upper(c)).len() == 8);
    } else if windows_reserved_spec(t) {
        lemma_underscore_prefix_not_reserved(t);
        assert forall|i: int| 0 <= i < out.len() implies safe_name_char(#[trigger] out[i]) by {
            if i > 0 {
                assert(out[i] == t[i - 1]);
            }
        }
        assert(out.last() == t.last());
    }
}

fn is_control(c: char) -> (b: bool)
    ensures
        b == is_control_char(c),
{
    let code = c as u32;
    code <= 0x1f || (0x7f <= code && code <= 0x9f)
}

fn upper(c: char) -> (u: char)
    ensures
        u == ascii_upper(c),
{
    if 'a' <= c && c <= 'z' {
        let b = (c as u8) - 32;
        b as char
    } else {
        c
    }
}

fn is_word3(u: &Vec<char>, x: char, y: char, z: char) -> (b: bool)
    ensures
        b == (u@ == seq![x, y, z]),
{
    let r = u.len() == 3 && u[0] == x && u[1] == y && u[2] == z;
    proof {
        if u@.len() == 3 {
            assert(u@ =~= seq![u@[0], u@[1], u@[2]]);
        }
    }
    r
}

fn is_numbered_device(u: &Vec<char>, x: char, y: char, z: char) -> (b: bool)
    ensures
        b == (u@.len() == 4 && u@.take(3) == seq![x, y, z] && '1' <= u@[3] && u@[3] <= '9'),
{
    let r = u.len() == 4 && u[0] == x && u[1] == y && u[2] == z && '1' <= u[3] && u[3] <= '9';
    proof {
        if u@.len() == 4 {
            assert(u@.take(3) =~= seq![u@[0], u@[1], u@[2]]);
        }
    }
    r
}

fn chars_reserved(name: &Vec<char>) -> (b: bool)
    ensures
        b == windows_reserved_spec(name@),
{
    let ghost s = name@;
    // The stem: everything before the first dot.
    let mut end: usize = 0;
    proof {
        assert(s.skip(0) =~= s);
        assert(s.take(0) + before_first_dot(s) =~= before_first_dot(s));
    }
    while end < name.len() && name[end] != '.'
        invariant
            end <= name@.len(),
            before_first_dot(s) == s.take(end as int) + before_first_dot(s.skip(end as int)),
            s == name@,
        decreases name@.len() - end,
    {
        proof {
            assert(s.skip(end as int).drop_first() =~= s.skip(end + 1));
            assert(s.take(end + 1) =~= s.take(end as int) + seq![s[end as int]]);
            assert(s.skip(end as int)[0] == s[end as int]);
        }
        end = end + 1;
    }
    proof {
        if end < s.len() {
            assert(s.skip(end as int)[0] == '.');
        } else {
            assert(s.skip(end as int).len() == 0);
        }
        assert(before_first_dot(s) =~= s.take(end as int));
    }
    // Drop trailing spaces of the stem.
    while end > 0 && name[end - 1] == ' '
        invariant
            end <= name@.len(),
            trim_end_spaces(before_first_dot(s)) == trim_end_spaces(s.take(end as int)),
            s == name@,
        decreases end,
    {
        proof {
            assert(s.take(end as int).drop_last() =~= s.take(end - 1));
        }
        end = end - 1;
    }
    let mut up: Vec<char> = Vec::new();
    let mut i: usize = 0;
    while i < end
        invariant
            end <= name@.len(),
            i <= end,
            s == name@,
            up@ == s.take(i as int).map_values(|c: char| ascii_upper(c)),
        decreases end - i,
    {
        up.push(upper(name[i]));
        i = i + 1;
        assert(up@ =~= s.take(i as int).map_values(|c: char| ascii_upper(c)));
    }
    proof {
        assert(trim_end_spaces(s.take(end as int)) == s.take(end as int));
    }
    let r = is_word3(&up, 'C', 'O', 'N') || is_word3(&up, 'P', 'R', 'N') || is_word3(
        &up,
        'A',
        'U',
        'X',
    ) || is_word3(&up, 'N', 'U', 'L') || is_numbered_device(&up, 'C', 'O', 'M')
        || is_numbered_device(&up, 'L', 'P', 'T');
    r
}

/// `CON`, `PRN`, `AUX`, `NUL`, `COM1`-`COM9`, `LPT1`-`LPT9`, case-insensitive,
/// with or without an extension (`nul.txt` is still the NUL device).
pub fn is_windows_reserved_name(name: &str) -> (b: bool)
    ensures
        b == windows_reserved_spec(name@),
{
    let chars = chars_of(name);
    chars_reserved(&chars)
}

proof fn lemma_filter_map_push(s: Seq<char>, c: char)
    ensures
        s.push(c).filter(not_control()).map_values(|x: char| replace_forbidden(x)) == if !is_control_char(c) {
            s.filter(not_control()).map_values(|x: char| replace_forbidden(x)).push(replace_forbidden(c))
        } else {
            s.filter(not_control()).map_values(|x: char| replace_forbidden(x))
        },
{
    s.lemma_filter_push(c, not_control());
    let f = s.filter(not_control());
    assert(f.push(c).map_values(|x: char| replace_forbidden(x)) =~= f.map_values(
        |x: char| replace_forbidden(x),
    ).push(replace_forbidden(c)));
}

/// Reduce a peer-supplied file name to a safe basename that is valid on
/// every platform: directories, control characters, characters Windows
/// forbids, and dots and spaces at either end are removed or replaced, and
/// Windows device names get a `_` prefix.
pub fn sanitize_file_name(name: &str) -> (out: String)
    ensures
        out@ == sanitize_spec(name@),
{
    let chars = chars_of(name);
    let ghost s = chars@;
    let len = chars.len();
    // Base name: after the last separator.
    let mut start: usize = 0;
    let mut i: usize = 0;
    while i < len
        invariant
            len == s.len(),
            s == chars@,
            start <= i <= len,
            after_last_sep(s.take(i as int)) == s.take(i as int).skip(start as int),
        decreases len - i,
    {
        proof {
            assert(s.take(i + 1).drop_last() =~= s.take(i as int));
            assert(s.take(i + 1).last() == s[i as int]);
        }
        if chars[i] == '/' || chars[i] == '\\' {
            start = i + 1;
            assert(s.take(i + 1).skip(start as int) =~= Seq::<char>::empty());
        } else {
            assert(s.take(i + 1).skip(start as int) =~= s.take(i as int).skip(start as int).push(
                s[i as int],
            ));
        }
        i = i + 1;
    }
    let ghost base = s.skip(start as int);
    proof {
        assert(s.take(len as int) =~= s);
    }
    // Cleaned: the first 200 non-control characters, forbidden ones replaced.
    let mut cleaned: Vec<char> = Vec::new();
    let mut j: usize = start;
    while j < len
        invariant
            len == s.len(),
            s == chars@,
            start <= j <= len,
            base == s.skip(start as int),
            cleaned@ == cleaned_name(base.take(j - start)),
        decreases len - j,
    {
        let c = chars[j];
        proof {
            assert(base.take(j + 1 - start) =~= base.take(j - start).push(c));
            lemma_filter_map_push(base.take(j - start), c);
        }
        if !is_control(c) {
            if cleaned.len() < 200 {
                let r = if c == '<' || c == '>' || c == ':' || c == '"' || c == '|' || c == '?' || c
                    == '*' {
                    '_'
                } else {
                    c
                };
                cleaned.push(r);
            }
        }
        proof {
            let f0 = base.take(j - start).filter(not_control()).map_values(
                |x: char| replace_forbidden(x),
            );
            let f1 = base.take(j + 1 - start).filter(not_control()).map_values(
                |x: char| replace_forbidden(x),
            );
            if !is_control_char(c) {
                if f0.len() >= 200 {
                    assert(f1.take(200) =~= f0.take(200));
                } else if f0.len() == 200 {
                }
            }
            assert(cleaned@ =~= cleaned_name(base.take(j + 1 - start)));
        }
        j = j + 1;
    }
    proof {
        assert(base.take(len - start) =~= base);
    }
    // Trim dots and spaces at both ends.
    let ghost c0 = cleaned@;
    let mut a: usize = 0;
    assert(c0.skip(0) =~= c0);
    while a < cleaned.len() && (cleaned[a] == '.' || cleaned[a] == ' ')
        invariant
            a <= c0.len(),
            c0 == cleaned@,
            trim_start_dots_spaces(c0) == trim_start_dots_spaces(c0.skip(a as int)),
        decreases c0.len() - a,
    {
        proof {
            assert(c0.skip(a as int).drop_first() =~= c0.skip(a + 1));
            assert(c0.skip(a as int)[0] == c0[a as int]);
        }
        a = a + 1;
    }
    proof {
        if a < c0.len() {
            assert(c0.skip(a as int)[0] == c0[a as int]);
        }
    }
    let mut b: usize = cleaned.len();
    while b > a && (cleaned[b - 1] == '.' || cleaned[b - 1] == ' ')
        invariant
            a <= b <= c0.len(),
            c0 == cleaned@,
            trim_end_dots_spaces(c0.skip(a as int)) == trim_end_dots_spaces(
                c0.subrange(a as int, b as int),
            ),
        decreases b,
    {
        proof {
            assert(c0.subrange(a as int, b as int).drop_last() =~= c0.subrange(a as int, b - 1));
        }
        b = b - 1;
    }
    proof {
        assert(c0.skip(a as int) =~= c0.subrange(a as int, c0.len() as int)) by {
        }
    }
    let mut trimmed: Vec<char> = Vec::new();
    let mut k: usize = a;
    while k < b
        invariant
            a <= k <= b <= c0.len(),
            c0 == cleaned@,
            trimmed@ == c0.subrange(a as int, k as int),
        decreases b - k,
    {
        trimmed.push(cleaned[k]);
        k = k + 1;
        assert(trimmed@ =~= c0.subrange(a as int, k as int));
    }
    proof {
        let t = c0.subrange(a as int, b as int);
        if b > a {
            assert(!is_dot_or_space(t.last()));
        }
        assert(trim_end_dots_spaces(t) == t);
        assert(trim_end_dots_spaces(c0.subrange(a as int, c0.len() as int)) == t);
    }
    if trimmed.len() == 0 {
        let mut fallback: Vec<char> = Vec::new();
        fallback.push('d');
        fallback.push('o');
        fallback.push('w');
        fallback.push('n');
        fallback.push('l');
        fallback.push('o');
        fallback.push('a');
        fallback.push('d');
        assert(fallback@ =~= seq!['d', 'o', 'w', 'n', 'l', 'o', 'a', 'd']);
        return string_of(&fallback);
    }
    if chars_reserved(&trimmed) {
        let mut prefixed: Vec<char> = Vec::new();
        prefixed.push('_');
        let mut m: usize = 0;
        while m < trimmed.len()
            invariant
                m <= trimmed@.len(),
                prefixed@ == seq!['_'] + trimmed@.take(m as int),
            decreases trimmed@.len() - m,
        {
            prefixed.push(trimmed[m]);
            m = m + 1;
            assert(prefixed@ =~= seq!['_'] + trimmed@.take(m as int));
        }
        assert(trimmed@.take(m as int) =~= trimmed@);
        return string_of(&prefixed);
    }
    string_of(&trimmed)
}

/// An inbound file transfer in flight (the temp file it is written to is
/// kept by the caller under the same id).
#[derive(Debug, Clone, PartialEq, Eq)]
pub struct ActiveFileReceive {
    /// The sanitized name the file is saved under.
    pub final_name: String,
    pub expected_size: u64,
    pub received_bytes: u64,
    /// Progress last reported to the frontend, for throttling.
    pub last_progress_bytes: u64,
    pub last_progress_at_ms: u64,
}

/// The verdict on a `FileStart`.
#[derive(Debug, Clone, Copy, PartialEq, Eq, Structural)]
pub enum FileStartVerdict {
    /// A protocol violation (bad id, oversized): dropped without showing a
    /// file card.
    Reject,
    /// Refused with a failure event carrying the reason.
    Fail(FileFailure),
    /// Accepted: create the temp file and begin the transfer.
    Accept,
}

/// Why a transfer failed, as reported to the frontend.
#[derive(Debug, Clone, Copy, PartialEq, Eq, Structural)]
pub enum FileFailure {
    NotAContact,
    TooManyTransfers,
    TempFileFailed,
    ChunkTooLarge,
    Incomplete,
    InvalidName,
    SaveFailed,
    StreamClosed,
}

impl FileFailure {
    pub fn reason(self) -> (s: &'static str)
        ensures
            s@ == (match self {
                FileFailure::NotAContact => "sender is not a contact"@,
                FileFailure::TooManyTransfers => "too many concurrent transfers"@,
                FileFailure::TempFileFailed => "could not create temp file"@,
                FileFailure::ChunkTooLarge => "chunk exceeds declared size"@,
                FileFailure::Incomplete => "incomplete transfer"@,
                FileFailure::InvalidName => "invalid file name"@,
                FileFailure::SaveFailed => "could not save file"@,
                FileFailure::StreamClosed => "stream closed mid-transfer"@,
            }),
    {
        match self {
            FileFailure::NotAContact => "sender is not a contact",
            FileFailure::TooManyTransfers => "too many concurrent transfers",
            FileFailure::TempFileFailed => "could not create temp file",
            FileFailure::ChunkTooLarge => "chunk exceeds declared size",
            FileFailure::Incomplete => "incomplete transfer",
            FileFailure::InvalidName => "invalid file name",
            FileFailure::SaveFailed => "could not save file",
            FileFailure::StreamClosed => "stream closed mid-transfer",
        }
    }
}

/// The verdict on a `FileChunk`.
#[derive(Debug, Clone, Copy, PartialEq, Eq, Structural)]
pub enum ChunkVerdict {
    /// No such transfer: ignored.
    Unknown,
    /// It would extend the file past its declared size: the transfer is
    /// dropped and reported failed.
    OverDeclared,
    /// Write it at its offset.
    Write,
}

/// The verdict on a `FileEnd`; the transfer is over in every case.
#[derive(Debug, Clone, PartialEq, Eq)]
pub enum FileEndVerdict {
    /// No such transfer: ignored (and shown as a message).
    Unknown,
    /// Not every byte arrived: the temp file is discarded and the transfer
    /// reported failed.
    Incomplete,
    /// Save the file under this name.
    Complete { final_name: String },
}

/// The inbound transfers of one DM stream, by transfer id.
pub struct FileTransfers {
    pub entries: Vec<(String, ActiveFileReceive)>,
}

impl View for FileTransfers {
    type V = Map<Seq<char>, ActiveFileReceive>;

    open spec fn view(&self) -> Map<Seq<char>, ActiveFileReceive> {
        key_map(self.entries@)
    }
}

pub open spec fn file_start_spec(
    m: Map<Seq<char>, ActiveFileReceive>,
    id: &str,
    size: u64,
    sender_is_contact: bool,
) -> FileStartVerdict {
    if !valid_transfer_id_spec(id.spec_bytes()) || size > MAX_INCOMING_FILE_SIZE {
        FileStartVerdict::Reject
    } else if !sender_is_contact {
        FileStartVerdict::Fail(FileFailure::NotAContact)
    } else if m.dom().len() >= MAX_CONCURRENT_TRANSFERS && !m.contains_key(id@) {
        FileStartVerdict::Fail(FileFailure::TooManyTransfers)
    } else {
        FileStartVerdict::Accept
    }
}

/// `a + b`, saturating at the largest `u64`.
pub open spec fn sat_add(a: u64, b: u64) -> u64 {
    if a + b > u64::MAX {
        u64::MAX
    } else {
        (a + b) as u64
    }
}

/// The bytes received after writing `len` bytes at `offset`: the end of the
/// furthest write.
pub open spec fn received_after(r: ActiveFileReceive, offset: u64, len: u64) -> u64 {
    if sat_add(offset, len) >= r.received_bytes {
        sat_add(offset, len)
    } else {
        r.received_bytes
    }
}

impl FileTransfers {
    pub open spec fn wf(&self) -> bool {
        keys_distinct(self.entries@)
    }

    pub fn new() -> (t: Self)
        ensures
            t.wf(),
            t@ == Map::<Seq<char>, ActiveFileReceive>::empty(),
    {
        let t = FileTransfers { entries: Vec::new() };
        assert(t@ =~= Map::<Seq<char>, ActiveFileReceive>::empty());
        t
    }

    /// The number of transfers in flight.
    pub fn len(&self) -> (n: usize)
        requires
            self.wf(),
        ensures
            n == self@.dom().len(),
    {
        proof {
            lemma_key_map_len(self.entries@);
        }
        self.entries.len()
    }

    /// Decides on a `FileStart` from a peer: bad ids and sizes over
    /// [`MAX_INCOMING_FILE_SIZE`] are dropped silently, only saved contacts
    /// may send files, and at most [`MAX_CONCURRENT_TRANSFERS`] run at once.
    pub fn check_file_start(&self, id: &str, size: u64, sender_is_contact: bool) -> (v:
        FileStartVerdict)
        requires
            self.wf(),
        ensures
            v == file_start_spec(self@, id, size, sender_is_contact),
    {
        if !is_valid_transfer_id(id) || size > MAX_INCOMING_FILE_SIZE {
            return FileStartVerdict::Reject;
        }
        if !sender_is_contact {
            return FileStartVerdict::Fail(FileFailure::NotAContact);
        }
        let key = id.to_owned();
        let n = self.len();
        if n >= MAX_CONCURRENT_TRANSFERS {
            match find_key(&self.entries, &key) {
                Some(i) => {
                    proof {
                        lemma_key_map_at(self.entries@, i as int);
                    }
                },
                None => {
                    return FileStartVerdict::Fail(FileFailure::TooManyTransfers);
                },
            }
        }
        FileStartVerdict::Accept
    }

    /// Begins a transfer (replacing one with the same id).
    pub fn begin(&mut self, id: &str, final_name: String, size: u64, now_ms: u64)
        requires
            old(self).wf(),
        ensures
            final(self).wf(),
            final(self)@ == old(self)@.insert(
                id@,
                ActiveFileReceive {
                    final_name,
                    expected_size: size,
                    received_bytes: 0,
                    last_progress_bytes: 0,
                    last_progress_at_ms: now_ms,
                },
            ),
    {
        let ghost e0 = self.entries@;
        let key = id.to_owned();
        let rec = ActiveFileReceive {
            final_name,
            expected_size: size,
            received_bytes: 0,
            last_progress_bytes: 0,
            last_progress_at_ms: now_ms,
        };
        match find_key(&self.entries, &key) {
            Some(i) => {
                let k2 = self.entries[i].0.clone();
                self.entries.set(i, (k2, rec));
                proof {
                    lemma_key_map_update(e0, i as int, rec);
                }
            },
            None => {
                self.entries.push((key, rec));
                proof {
                    lemma_key_map_push(e0, key, rec);
                }
            },
        }
    }

    /// Decides on a `FileChunk` of `len` bytes at `offset`.
    pub fn check_chunk(&self, id: &str, offset: u64, len: u64) -> (v: ChunkVerdict)
        requires
            self.wf(),
        ensures
            v == (if !self@.contains_key(id@) {
                ChunkVerdict::Unknown
            } else if sat_add(offset, len) > self@[id@].expected_size {
                ChunkVerdict::OverDeclared
            } else {
                ChunkVerdict::Write
            }),
    {
        let key = id.to_owned();
        match find_key(&self.entries, &key) {
            Some(i) => {
                proof {
                    lemma_key_map_at(self.entries@, i as int);
                }
                let end = if offset > u64::MAX - len {
                    u64::MAX
                } else {
                    offset + len
                };
                if end > self.entries[i].1.expected_size {
                    ChunkVerdict::OverDeclared
                } else {
                    ChunkVerdict::Write
                }
            },
            None => ChunkVerdict::Unknown,
        }
    }

    /// Ends the transfer `id` without saving; returns whether there was one.
    pub fn abort(&mut self, id: &str) -> (removed: bool)
        requires
            old(self).wf(),
        ensures
            final(self).wf(),
            removed == old(self)@.contains_key(id@),
            final(self)@ == old(self)@.remove(id@),
    {
        let ghost e0 = self.entries@;
        let key = id.to_owned();
        match find_key(&self.entries, &key) {
            Some(i) => {
                proof {
                    lemma_key_map_at(e0, i as int);
                    lemma_key_map_remove(e0, i as int);
                }
                self.entries.remove(i);
                true
            },
            None => {
                assert(key_map(e0).remove(id@) =~= key_map(e0));
                false
            },
        }
    }

    /// Records `len` bytes written at `offset` at time `now_ms`, and returns
    /// the byte count to report when a progress event is due (throttled by
    /// [`should_emit_file_progress`]).
    pub fn record_chunk_written(&mut self, id: &str, offset: u64, len: u64, now_ms: u64) -> (progress:
        Option<u64>)
        requires
            old(self).wf(),
        ensures
            final(self).wf(),
            !old(self)@.contains_key(id@) ==> progress is None && final(self)@ == old(self)@,
            old(self)@.contains_key(id@) ==> {
                let r = old(self)@[id@];
                let received = received_after(r, offset, len);
                let due = should_emit_file_progress_spec(
                    received,
                    r.expected_size,
                    r.last_progress_bytes,
                    (if now_ms >= r.last_progress_at_ms {
                        now_ms - r.last_progress_at_ms
                    } else {
                        0
                    }) as u64,
                );
                &&& progress == (if due {
                    Some(received)
                } else {
                    None
                })
                &&& final(self)@ == old(self)@.insert(
                    id@,
                    ActiveFileReceive {
                        received_bytes: received,
                        last_progress_bytes: if due {
                            received
                        } else {
                            r.last_progress_bytes
                        },
                        last_progress_at_ms: if due {
                            now_ms
                        } else {
                            r.last_progress_at_ms
                        },
                        ..r
                    },
                )
            },
    {
        let ghost e0 = self.entries@;
        let key = id.to_owned();
        match find_key(&self.entries, &key) {
            Some(i) => {
                proof {
                    lemma_key_map_at(e0, i as int);
                }
                let r = &self.entries[i].1;
                let end = if offset > u64::MAX - len {
                    u64::MAX
                } else {
                    offset + len
                };
                let received = if end >= r.received_bytes {
                    end
                } else {
                    r.received_bytes
                };
                let since = if now_ms >= r.last_progress_at_ms {
                    now_ms - r.last_progress_at_ms
                } else {
                    0
                };
                let due = should_emit_file_progress(
                    received,
                    r.expected_size,
                    r.last_progress_bytes,
                    since,
                );
                let updated = ActiveFileReceive {
                    final_name: r.final_name.clone(),
                    expected_size: r.expected_size,
                    received_bytes: received,
                    last_progress_bytes: if due {
                        received
                    } else {
                        r.last_progress_bytes
                    },
                    last_progress_at_ms: if due {
                        now_ms
                    } else {
                        r.last_progress_at_ms
                    },
                };
                let k2 = self.entries[i].0.clone();
                self.entries.set(i, (k2, updated));
                proof {
                    lemma_key_map_update(e0, i as int, updated);
                }
                if due {
                    Some(received)
                } else {
                    None
                }
            },
            None => None,
        }
    }

    /// Ends the transfer `id` on its `FileEnd`: complete only if exactly the
    /// declared number of bytes arrived.
    pub fn finish(&mut self, id: &str) -> (v: FileEndVerdict)
        requires
            old(self).wf(),
        ensures
            final(self).wf(),
            final(self)@ == old(self)@.remove(id@),
            v == (if !old(self)@.contains_key(id@) {
                FileEndVerdict::Unknown
            } else if old(self)@[id@].received_bytes != old(self)@[id@].expected_size {
                FileEndVerdict::Incomplete
            } else {
                FileEndVerdict::Complete { final_name: old(self)@[id@].final_name }
            }),
    {
        let ghost e0 = self.entries@;
        let key = id.to_owned();
        match find_key(&self.entries, &key) {
            Some(i) => {
                proof {
                    lemma_key_map_at(e0, i as int);
                    lemma_key_map_remove(e0, i as int);
                }
                let (_, r) = self.entries.remove(i);
                if r.received_bytes != r.expected_size {
                    FileEndVerdict::Incomplete
                } else {
                    FileEndVerdict::Complete { final_name: r.final_name }
                }
            },
            None => {
                assert(key_map(e0).remove(id@) =~= key_map(e0));
                FileEndVerdict::Unknown
            },
        }
    }

    /// Ends every transfer (the stream closed mid-transfer) and returns their
    /// ids, each to be reported failed.
    pub fn drain_ids(&mut self) -> (ids: Vec<String>)
        requires
            old(self).wf(),
        ensures
            final(self).wf(),
            final(self)@ == Map::<Seq<char>, ActiveFileReceive>::empty(),
            crate::keyed::string_views(ids@).to_set() == old(self)@.dom(),
    {
        let ghost e0 = self.entries@;
        let mut ids: Vec<String> = Vec::new();
        let mut i: usize = 0;
        while i < self.entries.len()
            invariant
                i <= self.entries@.len(),
                self.entries@ == e0,
                crate::keyed::string_views(ids@) == e0.take(i as int).map_values(
                    |x: (String, ActiveFileReceive)| x.0@,
                ),
            decreases self.entries@.len() - i,
        {
            let ghost before = ids@;
            let k = self.entries[i].0.clone();
            ids.push(k);
            assert(crate::keyed::string_views(ids@) =~= crate::keyed::string_views(before).push(
                e0[i as int].0@,
            ));
            assert(e0.take(i + 1).map_values(|x: (String, ActiveFileReceive)| x.0@) =~= e0.take(
                i as int,
            ).map_values(|x: (String, ActiveFileReceive)| x.0@).push(e0[i as int].0@));
            i = i + 1;
        }
        self.entries = Vec::new();
        proof {
            assert(e0.take(i as int) =~= e0);
            assert(crate::keyed::string_views(ids@).to_set() =~= key_map(e0).dom()) by {
                assert forall|k: Seq<char>| #[trigger] key_map(e0).dom().contains(k) implies crate::keyed::string_views(
                    ids@,
                ).contains(k) by {
                    let j = choose|j: int| 0 <= j < e0.len() && (#[trigger] e0[j]).0@ == k;
                    assert(crate::keyed::string_views(ids@)[j] == k);
                }
                assert forall|k: Seq<char>| crate::keyed::string_views(ids@).contains(k) implies #[trigger] key_map(
                    e0,
                ).dom().contains(k) by {
                    let j = choose|j: int|
                        0 <= j < crate::keyed::string_views(ids@).len()
                            && crate::keyed::string_views(ids@)[j] == k;
                    assert(e0[j].0@ == k);
                }
            }
            assert(key_map(self.entries@) =~= Map::<Seq<char>, ActiveFileReceive>::empty());
        }
        ids
    }
}

/// Index of the last `.` in `s`, or -1.
pub open spec fn last_dot(s: Seq<char>) -> int
    decreases s.len(),
{
    if s.len() == 0 {
        -1
    } else if s.last() == '.' {
        s.len() - 1
    } else {
        last_dot(s.drop_last())
    }
}

/// A file name's stem and extension, as paths split them: at the last dot,
/// unless that dot starts the name (a hidden file has no extension); `.`
/// and `..` are all stem.
pub open spec fn stem_and_extension(name: Seq<char>) -> (Seq<char>, Option<Seq<char>>) {
    let d = last_dot(name);
    if d > 0 && name != seq!['.', '.'] {
        (name.take(d), Some(name.skip(d + 1)))
    } else {
        (name, None)
    }
}

/// The name tried on attempt `i` when saving a received file: the name
/// itself first, then `stem (i).ext` (or `stem (i)` without an extension).
pub open spec fn candidate_name_spec(name: Seq<char>, i: nat) -> Seq<char> {
    if i == 0 {
        name
    } else {
        let (stem, ext) = stem_and_extension(name);
        match ext {
            Some(e) => stem + " ("@ + decimal(i) + ")."@ + e,
            None => stem + " ("@ + decimal(i) + ")"@,
        }
    }
}

proof fn lemma_last_dot_scan(s: Seq<char>, i: int, d: int)
    requires
        0 <= i < s.len(),
        d == last_dot(s.take(i)),
    ensures
        last_dot(s.take(i + 1)) == (if s[i] == '.' {
            i
        } else {
            d
        }),
{
    assert(s.take(i + 1).drop_last() =~= s.take(i));
}

/// The name to try on attempt `attempt` when a received file's name is
/// taken in the downloads directory. `name` is a sanitized base name (no
/// path separators).
pub fn candidate_file_name(name: &str, attempt: u64) -> (out: String)
    requires
        !name@.contains('/'),
        !name@.contains('\\'),
    ensures
        out@ == candidate_name_spec(name@, attempt as nat),
{
    if attempt == 0 {
        return name.to_owned();
    }
    let chars = chars_of(name);
    let ghost s = chars@;
    let mut d: usize = 0;
    let mut found = false;
    let mut i: usize = 0;
    while i < chars.len()
        invariant
            s == chars@,
            i <= s.len(),
            s.len() == name@.len(),
            found ==> d == last_dot(s.take(i as int)) && d < i,
            !found ==> last_dot(s.take(i as int)) == -1,
        decreases s.len() - i,
    {
        proof {
            lemma_last_dot_scan(
                s,
                i as int,
                if found {
                    d as int
                } else {
                    -1
                },
            );
        }
        if chars[i] == '.' {
            d = i;
            found = true;
        }
        i = i + 1;
    }
    assert(s.take(i as int) =~= s);
    let is_dotdot = chars.len() == 2 && chars[0] == '.' && chars[1] == '.';
    proof {
        if is_dotdot {
            assert(s =~= seq!['.', '.']);
        } else if s.len() == 2 && s[0] == '.' && s[1] == '.' {
            assert(false);
        }
    }
    let mut out: Vec<char> = Vec::new();
    if found && d > 0 && !is_dotdot {
        let du = d;
        let mut k: usize = 0;
        while k < du
            invariant
                s == chars@,
                du <= s.len(),
                k <= du,
                out@ == s.take(k as int),
            decreases du - k,
        {
            out.push(chars[k]);
            k = k + 1;
            assert(out@ =~= s.take(k as int));
        }
        push_str(&mut out, " (");
        push_decimal(&mut out, attempt);
        push_str(&mut out, ").");
        let ghost before = out@;
        let mut k2: usize = du + 1;
        while k2 < chars.len()
            invariant
                s == chars@,
                du + 1 <= k2 <= s.len(),
                out@ == before + s.subrange(du + 1, k2 as int),
            decreases s.len() - k2,
        {
            out.push(chars[k2]);
            k2 = k2 + 1;
            assert(out@ =~= before + s.subrange(du + 1, k2 as int));
        }
        assert(s.subrange(du + 1, s.len() as int) =~= s.skip(du + 1));
    } else {
        let mut k: usize = 0;
        while k < chars.len()
            invariant
                s == chars@,
                k <= s.len(),
                out@ == s.take(k as int),
            decreases s.len() - k,
        {
            out.push(chars[k]);
            k = k + 1;
            assert(out@ =~= s.take(k as int));
        }
        assert(s.take(k as int) =~= s);
        push_str(&mut out, " (");
        push_decimal(&mut out, attempt);
        push_str(&mut out, ")");
    }
    string_of(&out)
}

} // verus!
