//! The frame signature: the text by which frames are interned.
use vstd::prelude::*;
use vstd::string::StrSliceExecFns;
use crate::stack_trace::{Frame, LocalVariable};

verus! {

/// The character for a decimal digit.
pub open spec fn digit_char(d: nat) -> char {
    seq!['0', '1', '2', '3', '4', '5', '6', '7', '8', '9'][d as int]
}

/// Decimal digits of `n`, most significant first, without sign or padding.
pub open spec fn decimal(n: nat) -> Seq<char>
    decreases n,
{
    if n < 10 {
        seq![digit_char(n)]
    } else {
        decimal(n / 10).push(digit_char(n % 10))
    }
}

/// `s` with every occurrence of `pat` deleted, matches taken leftmost first
/// and without overlap.
pub open spec fn removed(s: Seq<char>, pat: Seq<char>) -> Seq<char>
    decreases s.len(),
{
    if s.len() == 0 {
        s
    } else if 0 < pat.len() <= s.len() && s.subrange(0, pat.len() as int) == pat {
        removed(s.subrange(pat.len() as int, s.len() as int), pat)
    } else {
        seq![s[0]] + removed(s.drop_first(), pat)
    }
}

/// A local's representation with quotes, escaped newlines and backslashes
/// stripped, in that order.
pub open spec fn clean_repr(r: Seq<char>) -> Seq<char> {
    removed(removed(removed(removed(r, seq!['"']), seq!['\'']), seq!['\\', 'n']), seq!['\\'])
}

/// How one argument appears inside a signature: `name: repr`, or `name`.
pub open spec fn local_text(l: LocalVariable) -> Seq<char> {
    match l.repr {
        Some(r) => l.name@ + seq![':', ' '] + clean_repr(r@),
        None => l.name@,
    }
}

/// The texts of the locals that are arguments, in order.
pub open spec fn arg_texts(ls: Seq<LocalVariable>) -> Seq<Seq<char>>
    decreases ls.len(),
{
    if ls.len() == 0 {
        seq![]
    } else if ls.last().arg {
        arg_texts(ls.drop_last()).push(local_text(ls.last()))
    } else {
        arg_texts(ls.drop_last())
    }
}

/// The parts separated by `", "`.
pub open spec fn joined(ps: Seq<Seq<char>>) -> Seq<char>
    decreases ps.len(),
{
    if ps.len() == 0 {
        seq![]
    } else if ps.len() == 1 {
        ps[0]
    } else {
        joined(ps.drop_last()) + seq![',', ' '] + ps.last()
    }
}

/// The argument list of a frame's signature.
pub open spec fn locals_text(f: Frame) -> Seq<char> {
    match f.locals {
        Some(v) => joined(arg_texts(v@)),
        None => seq![],
    }
}

/// The file name shown for a frame: the short one where there is one.
pub open spec fn display_file(f: Frame) -> Seq<char> {
    match f.short_filename {
        Some(s) => s@,
        None => f.filename@,
    }
}

/// The signature of a frame: `name(args) (file:line)` when the line is known,
/// `name(args) (file)` when only the file is, else the bare name.
pub open spec fn signature_of(f: Frame) -> Seq<char> {
    if f.line != 0 {
        f.name@ + seq!['('] + locals_text(f) + seq![')', ' ', '('] + display_file(f) + seq![':']
            + decimal(f.line as nat) + seq![')']
    } else if display_file(f).len() > 0 {
        f.name@ + seq!['('] + locals_text(f) + seq![')', ' ', '('] + display_file(f) + seq![')']
    } else {
        f.name@
    }
}

/// Relies on `str::replace` with an empty replacement: every occurrence of
/// `pat`, found leftmost first and without overlap, is deleted.
#[verifier::external_body]
fn remove_all(s: &str, pat: &str) -> (r: String)
    requires
        pat@.len() > 0,
    ensures
        r@ == removed(s@, pat@),
{
    s.replace(pat, "")
}

/// Relies on `ToString` for `u128`: its decimal digits, without sign or padding.
#[verifier::external_body]
pub(crate) fn decimal_text(n: u128) -> (r: String)
    ensures
        r@ == decimal(n as nat),
{
    n.to_string()
}

/// Strips quotes, escaped newlines and backslashes from a representation.
pub fn clean_repr_text(r: &str) -> (out: String)
    ensures
        out@ == clean_repr(r@),
{
    proof {
        reveal_strlit("\"");
        reveal_strlit("'");
        reveal_strlit("\\n");
        reveal_strlit("\\");
        assert("\""@ =~= seq!['"']);
        assert("'"@ =~= seq!['\'']);
        assert("\\n"@ =~= seq!['\\', 'n']);
        assert("\\"@ =~= seq!['\\']);
    }
    let a = remove_all(r, "\"");
    let b = remove_all(a.as_str(), "'");
    let c = remove_all(b.as_str(), "\\n");
    remove_all(c.as_str(), "\\")
}

fn local_signature_text(l: &LocalVariable) -> (t: String)
    ensures
        t@ == local_text(*l),
{
    match &l.repr {
        Some(r) => {
            proof {
                reveal_strlit(": ");
                assert(": "@ =~= seq![':', ' ']);
            }
            let mut t = l.name.clone();
            t.append(": ");
            let c = clean_repr_text(r.as_str());
            t.append(c.as_str());
            t
        },
        None => l.name.clone(),
    }
}

fn locals_signature_text(f: &Frame) -> (t: String)
    ensures
        t@ == locals_text(*f),
{
    match &f.locals {
        None => String::new(),
        Some(v) => {
            proof {
                reveal_strlit(", ");
                assert(", "@ =~= seq![',', ' ']);
            }
            let mut out = String::new();
            let ghost mut parts: Seq<Seq<char>> = seq![];
            let mut any: bool = false;
            let mut i: usize = 0;
            while i < v.len()
                invariant
                    0 <= i <= v.len(),
                    parts == arg_texts(v@.subrange(0, i as int)),
                    out@ == joined(parts),
                    any == (parts.len() > 0),
                    ", "@ == seq![',', ' '],
                decreases v.len() - i,
            {
                assert(v@.subrange(0, i + 1).drop_last() =~= v@.subrange(0, i as int));
                if v[i].arg {
                    let t = local_signature_text(&v[i]);
                    if any {
                        out.append(", ");
                    }
                    out.append(t.as_str());
                    proof {
                        let old_parts = parts;
                        parts = parts.push(t@);
                        assert(parts.drop_last() =~= old_parts);
                        if old_parts.len() == 0 {
                            assert(out@ =~= joined(parts));
                        } else {
                            assert(joined(parts) == joined(old_parts) + seq![',', ' '] + t@);
                            assert(out@ =~= joined(parts));
                        }
                    }
                    any = true;
                }
                i += 1;
            }
            assert(v@.subrange(0, v.len() as int) =~= v@);
            out
        },
    }
}

/// Renders the signature by which a frame is interned.
pub fn frame_signature(f: &Frame) -> (s: String)
    ensures
        s@ == signature_of(*f),
{
    proof {
        reveal_strlit("(");
        reveal_strlit(") (");
        reveal_strlit(":");
        reveal_strlit(")");
        assert("("@ =~= seq!['(']);
        assert(") ("@ =~= seq![')', ' ', '(']);
        assert(":"@ =~= seq![':']);
        assert(")"@ =~= seq![')']);
    }
    let file: &String = match &f.short_filename {
        Some(s) => s,
        None => &f.filename,
    };
    if f.line != 0 {
        let mut s = f.name.clone();
        s.append("(");
        let l = locals_signature_text(f);
        s.append(l.as_str());
        s.append(") (");
        s.append(file.as_str());
        s.append(":");
        let d = decimal_text(f.line as u128);
        s.append(d.as_str());
        s.append(")");
        s
    } else if file.as_str().unicode_len() > 0 {
        let mut s = f.name.clone();
        s.append("(");
        let l = locals_signature_text(f);
        s.append(l.as_str());
        s.append(") (");
        s.append(file.as_str());
        s.append(")");
        s
    } else {
        f.name.clone()
    }
}

proof fn lemma_removed_from(s: Seq<char>, pat: Seq<char>)
    ensures
        forall|i: int| 0 <= i < removed(s, pat).len() ==> s.contains(#[trigger] removed(s, pat)[i]),
    decreases s.len(),
{
    if s.len() == 0 {
    } else if 0 < pat.len() <= s.len() && s.subrange(0, pat.len() as int) == pat {
        let rest = s.subrange(pat.len() as int, s.len() as int);
        lemma_removed_from(rest, pat);
        assert forall|i: int| 0 <= i < removed(s, pat).len() implies s.contains(#[trigger] removed(s, pat)[i]) by {
            let c = removed(rest, pat)[i];
            let k = choose|k: int| 0 <= k < rest.len() && rest[k] == c;
            assert(s[pat.len() + k] == c);
        }
    } else {
        let rest = s.drop_first();
        lemma_removed_from(rest, pat);
        assert forall|i: int| 0 <= i < removed(s, pat).len() implies s.contains(#[trigger] removed(s, pat)[i]) by {
            if i == 0 {
                assert(s[0] == removed(s, pat)[0]);
            } else {
                let c = removed(rest, pat)[i - 1];
                assert(removed(s, pat)[i] == c);
                let k = choose|k: int| 0 <= k < rest.len() && rest[k] == c;
                assert(s[1 + k] == c);
            }
        }
    }
}

proof fn lemma_removed_char(s: Seq<char>, c: char)
    ensures
        !removed(s, seq![c]).contains(c),
    decreases s.len(),
{
    if s.len() > 0 {
        let rest = s.drop_first();
        lemma_removed_char(rest, c);
        if s.subrange(0, 1) == seq![c] {
        } else {
            assert(s[0] != c) by {
                if s[0] == c {
                    assert(s.subrange(0, 1) =~= seq![c]);
                }
            }
            assert forall|i: int| 0 <= i < removed(s, seq![c]).len() implies removed(s, seq![c])[i] != c by {
                if i > 0 {
                    assert(removed(s, seq![c])[i] == removed(rest, seq![c])[i - 1]);
                }
            }
        }
    }
}

/// A cleaned representation holds no quote, apostrophe or backslash, and so
/// no escaped newline either.
pub proof fn lemma_clean_repr_stripped(r: Seq<char>)
    ensures
        !clean_repr(r).contains('"'),
        !clean_repr(r).contains('\''),
        !clean_repr(r).contains('\\'),
{
    let a = removed(r, seq!['"']);
    let b = removed(a, seq!['\'']);
    let c = removed(b, seq!['\\', 'n']);
    lemma_removed_char(r, '"');
    lemma_removed_char(a, '\'');
    lemma_removed_char(c, '\\');
    lemma_removed_from(a, seq!['\'']);
    lemma_removed_from(b, seq!['\\', 'n']);
    lemma_removed_from(c, seq!['\\']);
    let out = clean_repr(r);
    assert forall|i: int| 0 <= i < out.len() implies out[i] != '"' && out[i] != '\'' by {
        assert(c.contains(out[i]));
        let k = choose|k: int| 0 <= k < c.len() && c[k] == out[i];
        assert(b.contains(c[k]));
        let m = choose|m: int| 0 <= m < b.len() && b[m] == c[k];
        assert(a.contains(b[m]));
    }
}

} // verus!
