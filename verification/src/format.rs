//! Variadic format emitter.
//!
//! The routine being replaced walks a C variadic argument list while
//! scanning a format string.  Here the argument cursor is an explicit,
//! ordered sequence of tagged values built by the caller-adaptation layer,
//! so no unsafe variadic decoding is needed in the core.
//!
//! The produced text is returned to the caller as one logical line together
//! with the number of bytes produced — the return-value contract of the
//! routine being replaced.  It is not written to a process-level standard
//! output stream (none exists in the hosted environment); the caller routes
//! the line to its structured logging sink.  That divergence is deliberate.
//!
//! The recognized specifier set is the surface the linked numerical library
//! actually emits: `%d`/`%i` (signed decimal), `%u` (unsigned decimal),
//! `%s` (string), `%c` (single character), `%%` (literal percent), and the
//! floating-point family `%f`/`%e`/`%g`.  Floating-point values cannot live
//! in the verified core, so a float argument carries its host-rendered
//! decimal text and the emitter copies that text through.  A format string
//! whose specifiers do not match the supplied arguments is outside the
//! contract, as with the routine being replaced, whose behaviour on such
//! input is inherited from its formatting engine.

use vstd::prelude::*;
use vstd::slice::slice_to_vec;

verus! {

/// The byte value of the `%` specifier introducer.
pub const PERCENT: u8 = 37;

/// One tagged argument of a format request, standing in for one slot of
/// the C variadic argument list.
#[derive(Debug)]
pub enum FmtArg {
    /// A signed integer, for `%d` and `%i`.
    Int(i64),
    /// An unsigned integer, for `%u`.
    Uint(u64),
    /// A string (the bytes of a C string, terminator excluded), for `%s`.
    Str(Vec<u8>),
    /// A single character, for `%c`.
    Chr(u8),
    /// A floating-point value, pre-rendered to decimal text by the host
    /// (the verified core holds no floats), for `%f`, `%e` and `%g`.
    Float(Vec<u8>),
}

/// The decimal digits of `n`, most significant first.
pub open spec fn dec_digits(n: nat) -> Seq<u8>
    decreases n,
{
    if n < 10 {
        seq![(48 + n) as u8]
    } else {
        dec_digits(n / 10).push((48 + n % 10) as u8)
    }
}

/// The decimal rendering of a signed integer: a minus sign followed by the
/// digits of the magnitude, or just the digits.
pub open spec fn dec_int(v: int) -> Seq<u8> {
    if v < 0 {
        seq![45u8] + dec_digits((-v) as nat)
    } else {
        dec_digits(v as nat)
    }
}

/// The specifier characters that consume one argument.
pub open spec fn is_conv(c: u8) -> bool {
    c == 100 || c == 105 || c == 117 || c == 115 || c == 99 || c == 102 || c == 101 || c == 103
}

/// Whether one argument fits one specifier character: `%d`/`%i` take an
/// `Int`, `%u` a `Uint`, `%s` a `Str`, `%c` a `Chr`, and `%f`/`%e`/`%g` a
/// `Float`.
pub open spec fn arg_matches(c: u8, a: FmtArg) -> bool {
    match a {
        FmtArg::Int(_) => c == 100 || c == 105,
        FmtArg::Uint(_) => c == 117,
        FmtArg::Str(_) => c == 115,
        FmtArg::Chr(_) => c == 99,
        FmtArg::Float(_) => c == 102 || c == 101 || c == 103,
    }
}

/// The text one argument contributes to the output.
pub open spec fn rendered(a: FmtArg) -> Seq<u8> {
    match a {
        FmtArg::Int(v) => dec_int(v as int),
        FmtArg::Uint(v) => dec_digits(v as nat),
        FmtArg::Str(s) => s@,
        FmtArg::Chr(c) => seq![c],
        FmtArg::Float(t) => t@,
    }
}

/// A well-formed format request: every `%` introduces either `%%` or a
/// recognized specifier with a matching argument available, and the
/// arguments are consumed exactly.
pub open spec fn wf_format(fmt: Seq<u8>, args: Seq<FmtArg>) -> bool
    decreases fmt.len(),
{
    if fmt.len() == 0 {
        args.len() == 0
    } else if fmt[0] == PERCENT {
        &&& fmt.len() >= 2
        &&& if fmt[1] == PERCENT {
            wf_format(fmt.skip(2), args)
        } else {
            &&& is_conv(fmt[1])
            &&& args.len() > 0
            &&& arg_matches(fmt[1], args[0])
            &&& wf_format(fmt.skip(2), args.skip(1))
        }
    } else {
        wf_format(fmt.skip(1), args)
    }
}

/// The full text of a format request: literal bytes copied through, `%%`
/// collapsed to one percent sign, and each specifier replaced by its
/// argument's rendering.
pub open spec fn fmt_output(fmt: Seq<u8>, args: Seq<FmtArg>) -> Seq<u8>
    decreases fmt.len(),
{
    if fmt.len() == 0 {
        Seq::empty()
    } else if fmt[0] == PERCENT && fmt.len() >= 2 {
        if fmt[1] == PERCENT {
            seq![PERCENT] + fmt_output(fmt.skip(2), args)
        } else if args.len() > 0 {
            rendered(args[0]) + fmt_output(fmt.skip(2), args.skip(1))
        } else {
            Seq::empty()
        }
    } else {
        seq![fmt[0]] + fmt_output(fmt.skip(1), args)
    }
}

/// Appends the bytes of `s` to `out`.
fn emit_bytes(out: &mut Vec<u8>, s: &Vec<u8>)
    ensures
        final(out)@ == old(out)@ + s@,
{
    let n = s.len();
    let mut i: usize = 0;
    assert(out@ =~= old(out)@ + s@.take(0));
    while i < n
        invariant
            i <= n,
            n == s@.len(),
            out@ == old(out)@ + s@.take(i as int),
        decreases n - i,
    {
        out.push(s[i]);
        i = i + 1;
        assert(out@ =~= old(out)@ + s@.take(i as int));
    }
    assert(s@.take(n as int) =~= s@);
}

/// Appends the decimal digits of `v` to `out`, most significant first.
fn emit_u64(out: &mut Vec<u8>, v: u64)
    ensures
        final(out)@ == old(out)@ + dec_digits(v as nat),
    decreases v,
{
    if v < 10 {
        out.push(48 + v as u8);
        assert(out@ =~= old(out)@ + dec_digits(v as nat));
    } else {
        emit_u64(out, v / 10);
        out.push(48 + (v % 10) as u8);
        assert(out@ =~= old(out)@ + dec_digits(v as nat));
    }
}

/// Appends the decimal rendering of `v` to `out`, sign included.
fn emit_i64(out: &mut Vec<u8>, v: i64)
    ensures
        final(out)@ == old(out)@ + dec_int(v as int),
{
    if v >= 0 {
        emit_u64(out, v as u64);
    } else {
        out.push(45);
        let m: u64 = (-(v as i128)) as u64;
        assert(m as int == -(v as int));
        emit_u64(out, m);
        assert(out@ =~= old(out)@ + dec_int(v as int));
    }
}

/// Appends one argument's rendering to `out`.
fn emit_arg(out: &mut Vec<u8>, a: &FmtArg)
    ensures
        final(out)@ == old(out)@ + rendered(*a),
{
    match a {
        FmtArg::Int(v) => {
            emit_i64(out, *v);
        },
        FmtArg::Uint(v) => {
            emit_u64(out, *v);
        },
        FmtArg::Str(s) => {
            emit_bytes(out, s);
        },
        FmtArg::Chr(c) => {
            out.push(*c);
            assert(out@ =~= old(out)@ + rendered(*a));
        },
        FmtArg::Float(t) => {
            emit_bytes(out, t);
        },
    }
}

/// Decides whether one argument fits one specifier character.
fn arg_fits(c: u8, a: &FmtArg) -> (r: bool)
    ensures
        r == arg_matches(c, *a),
{
    match a {
        FmtArg::Int(_) => c == 100 || c == 105,
        FmtArg::Uint(_) => c == 117,
        FmtArg::Str(_) => c == 115,
        FmtArg::Chr(_) => c == 99,
        FmtArg::Float(_) => c == 102 || c == 101 || c == 103,
    }
}

/// Decides whether a format request is well formed, so that an unverified
/// caller can test a format string and argument list before handing them
/// to [`printf`].
pub fn format_matches(fmt: &[u8], args: &[FmtArg]) -> (r: bool)
    ensures
        r == wf_format(fmt@, args@),
{
    let n = fmt.len();
    let na = args.len();
    let mut i: usize = 0;
    let mut k: usize = 0;
    assert(fmt@.skip(0) =~= fmt@);
    assert(args@.skip(0) =~= args@);
    while i < n
        invariant
            i <= n,
            k <= na,
            n == fmt@.len(),
            na == args@.len(),
            wf_format(fmt@, args@) == wf_format(fmt@.skip(i as int), args@.skip(k as int)),
        decreases n - i,
    {
        let ghost rest = fmt@.skip(i as int);
        let ghost rest_args = args@.skip(k as int);
        assert(rest[0] == fmt@[i as int]);
        let c = fmt[i];
        if c == PERCENT {
            if i + 1 >= n {
                return false;
            }
            assert(rest[1] == fmt@[i as int + 1]);
            let c2 = fmt[i + 1];
            if c2 == PERCENT {
                i = i + 2;
                proof {
                    assert(rest.skip(2) =~= fmt@.skip(i as int));
                }
            } else {
                if k >= na {
                    return false;
                }
                if !arg_fits(c2, &args[k]) {
                    return false;
                }
                assert(rest_args[0] == args@[k as int]);
                i = i + 2;
                k = k + 1;
                proof {
                    assert(rest.skip(2) =~= fmt@.skip(i as int));
                    assert(rest_args.skip(1) =~= args@.skip(k as int));
                }
            }
        } else {
            i = i + 1;
            proof {
                assert(rest.skip(1) =~= fmt@.skip(i as int));
            }
        }
    }
    assert(fmt@.skip(n as int) =~= Seq::<u8>::empty());
    k == na
}

/// `printf`: interprets the format string over the tagged argument cursor
/// and returns the fully formatted line together with the number of bytes
/// produced, which always equals the line's length.
pub fn printf(fmt: &[u8], args: &[FmtArg]) -> (r: (Vec<u8>, usize))
    requires
        wf_format(fmt@, args@),
    ensures
        r.0@ == fmt_output(fmt@, args@),
        r.1 == r.0@.len(),
{
    let n = fmt.len();
    let na = args.len();
    let mut out: Vec<u8> = Vec::new();
    let mut i: usize = 0;
    let mut k: usize = 0;
    assert(fmt@.skip(0) =~= fmt@);
    assert(args@.skip(0) =~= args@);
    assert(out@ + fmt_output(fmt@, args@) =~= fmt_output(fmt@, args@));
    while i < n
        invariant
            i <= n,
            k <= na,
            n == fmt@.len(),
            na == args@.len(),
            wf_format(fmt@.skip(i as int), args@.skip(k as int)),
            fmt_output(fmt@, args@) == out@ + fmt_output(fmt@.skip(i as int), args@.skip(k as int)),
        decreases n - i,
    {
        let ghost rest = fmt@.skip(i as int);
        let ghost rest_args = args@.skip(k as int);
        let ghost out0 = out@;
        assert(rest[0] == fmt@[i as int]);
        let c = fmt[i];
        if c == PERCENT {
            assert(rest.len() >= 2);
            assert(rest[1] == fmt@[i as int + 1]);
            let c2 = fmt[i + 1];
            if c2 == PERCENT {
                out.push(PERCENT);
                i = i + 2;
                proof {
                    assert(rest.skip(2) =~= fmt@.skip(i as int));
                    assert(out@ + fmt_output(fmt@.skip(i as int), rest_args) =~= out0
                        + fmt_output(rest, rest_args));
                }
            } else {
                assert(rest_args.len() > 0);
                assert(rest_args[0] == args@[k as int]);
                emit_arg(&mut out, &args[k]);
                i = i + 2;
                k = k + 1;
                proof {
                    assert(rest.skip(2) =~= fmt@.skip(i as int));
                    assert(rest_args.skip(1) =~= args@.skip(k as int));
                    assert(out@ + fmt_output(fmt@.skip(i as int), args@.skip(k as int)) =~= out0
                        + fmt_output(rest, rest_args));
                }
            }
        } else {
            out.push(c);
            i = i + 1;
            proof {
                assert(rest.skip(1) =~= fmt@.skip(i as int));
                assert(out@ + fmt_output(fmt@.skip(i as int), rest_args) =~= out0 + fmt_output(
                    rest,
                    rest_args,
                ));
            }
        }
    }
    assert(fmt@.skip(n as int) =~= Seq::<u8>::empty());
    assert(out@ + fmt_output(fmt@.skip(n as int), args@.skip(k as int)) =~= out@);
    let len = out.len();
    (out, len)
}

/// `putchar`: writes a single character by formatting `"%c"`, sharing the
/// formatter's argument-cursor handling.  The reported value is the
/// character written, the return contract of the routine being replaced.
pub fn putchar(c: u8) -> (r: (Vec<u8>, usize))
    ensures
        r.0@ == seq![c],
        r.1 == c as usize,
{
    let mut fmt: Vec<u8> = Vec::new();
    fmt.push(PERCENT);
    fmt.push(99);
    let mut args: Vec<FmtArg> = Vec::new();
    args.push(FmtArg::Chr(c));
    proof {
        assert(fmt@ =~= seq![PERCENT, 99u8]);
        assert(args@ =~= seq![FmtArg::Chr(c)]);
        assert(fmt@.skip(2) =~= Seq::<u8>::empty());
        assert(args@.skip(1) =~= Seq::<FmtArg>::empty());
        assert(wf_format(Seq::<u8>::empty(), Seq::<FmtArg>::empty()));
        assert(fmt_output(Seq::<u8>::empty(), Seq::<FmtArg>::empty()) =~= Seq::<u8>::empty());
        assert(wf_format(fmt@, args@));
        assert(fmt_output(fmt@, args@) =~= seq![c]);
    }
    let (line, _count) = printf(fmt.as_slice(), args.as_slice());
    (line, c as usize)
}

/// `puts`: writes a whole string by formatting `"%s"`, sharing the
/// formatter's argument-cursor handling, and reports the string's length.
pub fn puts(s: &[u8]) -> (r: (Vec<u8>, usize))
    ensures
        r.0@ == s@,
        r.1 == s@.len(),
{
    let mut fmt: Vec<u8> = Vec::new();
    fmt.push(PERCENT);
    fmt.push(115);
    let copy: Vec<u8> = slice_to_vec(s);
    let mut args: Vec<FmtArg> = Vec::new();
    args.push(FmtArg::Str(copy));
    proof {
        assert(fmt@ =~= seq![PERCENT, 115u8]);
        assert(args@ =~= seq![FmtArg::Str(copy)]);
        assert(rendered(args@[0]) == s@);
        assert(fmt@.skip(2) =~= Seq::<u8>::empty());
        assert(args@.skip(1) =~= Seq::<FmtArg>::empty());
        assert(wf_format(Seq::<u8>::empty(), Seq::<FmtArg>::empty()));
        assert(fmt_output(Seq::<u8>::empty(), Seq::<FmtArg>::empty()) =~= Seq::<u8>::empty());
        assert(wf_format(fmt@, args@));
        assert(fmt_output(fmt@, args@) =~= s@);
    }
    printf(fmt.as_slice(), args.as_slice())
}

} // verus!
