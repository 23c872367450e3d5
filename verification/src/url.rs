//! URL query helpers: a percent-decoder for the most common URL-encoded
//! characters, and extraction of the `input` parameter from a location's
//! query string.  Both operate on explicit character sequences; the caller
//! that owns the browser location hands the search string in and takes the
//! decoded text back.

use vstd::prelude::*;
use vstd::slice::slice_subrange;
use vstd::slice::slice_to_vec;

verus! {

/// Whether `c` is a hexadecimal digit (either case).
pub open spec fn is_hex(c: char) -> bool {
    (48 <= c as int <= 57) || (97 <= c as int <= 102) || (65 <= c as int <= 70)
}

/// The value of a hexadecimal digit.
pub open spec fn hex_val(c: char) -> int {
    if 48 <= c as int <= 57 {
        c as int - 48
    } else if 97 <= c as int <= 102 {
        c as int - 87
    } else {
        c as int - 55
    }
}

/// The byte value of the two characters following a percent sign, or `-1`
/// when they do not parse as a base-16 byte.  Unsigned integer parsing
/// accepts an optional leading `+` sign (and only that sign), so `+`
/// before a single digit is a byte too.
pub open spec fn pair_byte(c1: char, c2: char) -> int {
    if is_hex(c1) && is_hex(c2) {
        16 * hex_val(c1) + hex_val(c2)
    } else if c1 == '+' && is_hex(c2) {
        hex_val(c2)
    } else {
        -1
    }
}

/// The decoding of a URL-encoded character sequence: `%XX` becomes the
/// character with that byte value, `+` becomes a space, everything else is
/// copied through.  A `%` whose following characters do not form a byte is
/// kept literally together with those characters.
pub open spec fn decode_url_spec(s: Seq<char>) -> Seq<char>
    decreases s.len(),
{
    if s.len() == 0 {
        Seq::empty()
    } else if s[0] == '%' {
        if s.len() == 1 {
            seq!['%']
        } else if s.len() == 2 {
            seq!['%', s[1]]
        } else if pair_byte(s[1], s[2]) >= 0 {
            seq![((pair_byte(s[1], s[2])) as u8) as char] + decode_url_spec(s.skip(3))
        } else {
            seq!['%', s[1], s[2]] + decode_url_spec(s.skip(3))
        }
    } else if s[0] == '+' {
        seq![' '] + decode_url_spec(s.skip(1))
    } else {
        seq![s[0]] + decode_url_spec(s.skip(1))
    }
}

/// The index of the first occurrence of `c` in `s`, or `s.len()` if there
/// is none.
pub open spec fn find_char(s: Seq<char>, c: char) -> nat
    decreases s.len(),
{
    if s.len() == 0 {
        0
    } else if s[0] == c {
        0
    } else {
        find_char(s.skip(1), c) + 1
    }
}

/// The query key whose value is extracted.
pub open spec fn input_key() -> Seq<char> {
    seq!['i', 'n', 'p', 'u', 't']
}

/// The raw (still encoded) value of one `key=value` query segment, if its
/// key is `input`.  A segment without `=` carries no value.
pub open spec fn seg_value(seg: Seq<char>) -> Option<Seq<char>> {
    let e = find_char(seg, '=');
    if e < seg.len() && seg.take(e as int) == input_key() {
        Some(seg.skip(e as int + 1))
    } else {
        None
    }
}

/// The raw value of the first `input` key among the `&`-separated segments
/// of a query string.
pub open spec fn lookup_input(q: Seq<char>) -> Option<Seq<char>>
    decreases q.len(),
{
    let k = find_char(q, '&');
    let seg = q.take(k as int);
    if seg_value(seg) is Some {
        seg_value(seg)
    } else if k < q.len() {
        lookup_input(q.skip(k as int + 1))
    } else {
        None
    }
}

/// The search string with every leading question mark removed.
pub open spec fn trim_q(s: Seq<char>) -> Seq<char>
    decreases s.len(),
{
    if s.len() > 0 && s[0] == '?' {
        trim_q(s.skip(1))
    } else {
        s
    }
}

/// The decoded `input` parameter of a location's search string, if any: an
/// empty or bare-`?` search carries none; otherwise the first
/// `input=value` segment of the trimmed query wins and its value is
/// percent-decoded.
pub open spec fn input_parameter_spec(search: Seq<char>) -> Option<Seq<char>> {
    if search.len() == 0 || search == seq!['?'] {
        None
    } else {
        match lookup_input(trim_q(search)) {
            Some(raw) => Some(decode_url_spec(raw)),
            None => None,
        }
    }
}

/// A `find_char` result is exactly the index below which `c` does not
/// occur and at which it does (or the length).
proof fn lemma_find_char(t: Seq<char>, c: char, k: int)
    requires
        0 <= k <= t.len(),
        forall|m: int| 0 <= m < k ==> t[m] != c,
        k < t.len() ==> t[k] == c,
    ensures
        find_char(t, c) == k,
    decreases k,
{
    if k == 0 {
    } else {
        assert(t[0] != c);
        assert(forall|m: int| 0 <= m < k - 1 ==> t.skip(1)[m] == t[m + 1]);
        lemma_find_char(t.skip(1), c, k - 1);
    }
}

/// Decides hexadecimal digits and their values.
fn hex_digit(c: char) -> (r: (bool, u8))
    ensures
        r.0 == is_hex(c),
        r.0 ==> r.1 as int == hex_val(c),
{
    let v: u32 = c as u32;
    if 48 <= v && v <= 57 {
        (true, (v - 48) as u8)
    } else if 97 <= v && v <= 102 {
        (true, (v - 87) as u8)
    } else if 65 <= v && v <= 70 {
        (true, (v - 55) as u8)
    } else {
        (false, 0)
    }
}

/// Decodes a URL-encoded character sequence, handling `%XX` escapes and
/// `+`-for-space; characters that do not form an escape are kept as they
/// are.
pub fn decode_url(encoded: &[char]) -> (r: Vec<char>)
    ensures
        r@ == decode_url_spec(encoded@),
{
    let n = encoded.len();
    let mut out: Vec<char> = Vec::new();
    let mut i: usize = 0;
    assert(encoded@.skip(0) =~= encoded@);
    assert(out@ + decode_url_spec(encoded@) =~= decode_url_spec(encoded@));
    while i < n
        invariant
            i <= n,
            n == encoded@.len(),
            decode_url_spec(encoded@) == out@ + decode_url_spec(encoded@.skip(i as int)),
        decreases n - i,
    {
        let ghost rest = encoded@.skip(i as int);
        let ghost out0 = out@;
        assert(rest[0] == encoded@[i as int]);
        let c = encoded[i];
        if c == '%' {
            if i + 1 >= n {
                out.push('%');
                i = n;
                proof {
                    assert(rest =~= seq!['%']);
                    assert(encoded@.skip(n as int) =~= Seq::<char>::empty());
                    assert(out@ + decode_url_spec(encoded@.skip(n as int)) =~= out0
                        + decode_url_spec(rest));
                }
            } else if i + 2 >= n {
                assert(rest[1] == encoded@[i as int + 1]);
                let c1 = encoded[i + 1];
                out.push('%');
                out.push(c1);
                i = n;
                proof {
                    assert(rest =~= seq!['%', c1]);
                    assert(encoded@.skip(n as int) =~= Seq::<char>::empty());
                    assert(out@ + decode_url_spec(encoded@.skip(n as int)) =~= out0
                        + decode_url_spec(rest));
                }
            } else {
                assert(rest[1] == encoded@[i as int + 1]);
                assert(rest[2] == encoded@[i as int + 2]);
                let c1 = encoded[i + 1];
                let c2 = encoded[i + 2];
                let (h1, v1) = hex_digit(c1);
                let (h2, v2) = hex_digit(c2);
                if h1 && h2 {
                    let b: u8 = 16 * v1 + v2;
                    out.push(b as char);
                } else if c1 == '+' && h2 {
                    out.push(v2 as char);
                } else {
                    out.push('%');
                    out.push(c1);
                    out.push(c2);
                }
                i = i + 3;
                proof {
                    assert(rest.skip(3) =~= encoded@.skip(i as int));
                    if pair_byte(c1, c2) >= 0 {
                        assert(decode_url_spec(rest) == seq![((pair_byte(c1, c2)) as u8) as char]
                            + decode_url_spec(rest.skip(3)));
                    } else {
                        assert(decode_url_spec(rest) == seq!['%', c1, c2] + decode_url_spec(
                            rest.skip(3),
                        ));
                    }
                    assert(out@ + decode_url_spec(encoded@.skip(i as int)) =~= out0
                        + decode_url_spec(rest));
                }
            }
        } else {
            if c == '+' {
                out.push(' ');
            } else {
                out.push(c);
            }
            i = i + 1;
            proof {
                assert(rest.skip(1) =~= encoded@.skip(i as int));
                assert(out@ + decode_url_spec(encoded@.skip(i as int)) =~= out0 + decode_url_spec(
                    rest,
                ));
            }
        }
    }
    assert(encoded@.skip(n as int) =~= Seq::<char>::empty());
    assert(out@ + decode_url_spec(encoded@.skip(n as int)) =~= out@);
    out
}

/// The index of the first `c` in `q` within `[start, end)`, or `end`.
fn find_in(q: &[char], start: usize, end: usize, c: char) -> (r: usize)
    requires
        start <= end <= q@.len(),
    ensures
        start <= r <= end,
        forall|m: int| start <= m < r ==> q@[m] != c,
        r < end ==> q@[r as int] == c,
        find_char(q@.skip(start as int).take((end - start) as int), c) == r - start,
{
    let mut i: usize = start;
    while i < end && q[i] != c
        invariant
            start <= i <= end,
            end <= q@.len(),
            forall|m: int| start <= m < i ==> q@[m] != c,
        decreases end - i,
    {
        i = i + 1;
    }
    proof {
        let t = q@.skip(start as int).take((end - start) as int);
        assert(forall|m: int| 0 <= m < t.len() ==> t[m] == q@[start + m]);
        lemma_find_char(t, c, i - start);
    }
    i
}

/// Scans the `&`-separated segments of `q` from position `j` for the first
/// `input=value` segment and returns the raw value.
fn lookup_input_from(q: &[char], j: usize) -> (r: Option<Vec<char>>)
    requires
        j <= q@.len(),
    ensures
        match r {
            Some(v) => lookup_input(q@.skip(j as int)) == Some(v@),
            None => lookup_input(q@.skip(j as int)) is None,
        },
    decreases q@.len() - j,
{
    let n = q.len();
    let k = find_in(q, j, n, '&');
    let e = find_in(q, j, k, '=');
    let ghost tail = q@.skip(j as int);
    let ghost seg = tail.take((k - j) as int);
    proof {
        assert(tail.take((n - j) as int) =~= tail);
        assert(find_char(tail, '&') == k - j);
        assert(forall|m: int| 0 <= m < seg.len() ==> seg[m] == q@[j + m]);
        assert(seg.take((e - j) as int) =~= tail.take((e - j) as int));
        assert(find_char(seg, '=') == e - j);
    }
    if e < k && e - j == 5 && q[j] == 'i' && q[j + 1] == 'n' && q[j + 2] == 'p' && q[j + 3] == 'u'
        && q[j + 4] == 't' {
        let raw = slice_subrange(q, e + 1, k);
        let v = slice_to_vec(raw);
        proof {
            assert(seg.take(5) =~= input_key());
            assert(seg.skip((e - j + 1) as int) =~= q@.subrange(e + 1, k as int));
            assert(seg_value(seg) == Some(v@));
        }
        Some(v)
    } else {
        proof {
            if e < k {
                if e - j == 5 {
                    assert(exists|m: int|
                        0 <= m < 5 && seg.take(5)[m] != #[trigger] input_key()[m]);
                    assert(seg.take((e - j) as int) != input_key());
                } else {
                    assert(seg.take((e - j) as int).len() != input_key().len());
                    assert(seg.take((e - j) as int) != input_key());
                }
            }
            assert(seg_value(seg) is None);
        }
        if k < n {
            let r = lookup_input_from(q, k + 1);
            proof {
                assert(tail.skip((k - j + 1) as int) =~= q@.skip(k + 1 as int));
            }
            r
        } else {
            None
        }
    }
}

/// Extracts the `input` parameter from a location's search string (the
/// part beginning with `?`) and percent-decodes it; yields nothing when
/// the search string is empty, is a bare `?`, or carries no `input` key.
pub fn get_url_input_parameter(search: &[char]) -> (r: Option<Vec<char>>)
    ensures
        match r {
            Some(v) => input_parameter_spec(search@) == Some(v@),
            None => input_parameter_spec(search@) is None,
        },
{
    let n = search.len();
    if n == 0 {
        return None;
    }
    if n == 1 && search[0] == '?' {
        proof {
            assert(search@ =~= seq!['?']);
        }
        return None;
    }
    let mut t: usize = 0;
    assert(search@.skip(0) =~= search@);
    while t < n && search[t] == '?'
        invariant
            t <= n,
            n == search@.len(),
            trim_q(search@) == trim_q(search@.skip(t as int)),
        decreases n - t,
    {
        proof {
            assert(search@.skip(t as int).skip(1) =~= search@.skip(t as int + 1));
        }
        t = t + 1;
    }
    proof {
        if t == n {
            assert(search@.skip(t as int) =~= Seq::<char>::empty());
        }
        assert(trim_q(search@) == search@.skip(t as int));
    }
    match lookup_input_from(search, t) {
        Some(v) => {
            let d = decode_url(v.as_slice());
            Some(d)
        },
        None => None,
    }
}

} // verus!
