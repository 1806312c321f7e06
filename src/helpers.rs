//! Normalising text before a search.
use crate::table::same_text;
use crate::text::{char_width_at, lemma_prefix_bytes_mono, prefix_bytes, slice_between};
use vstd::prelude::*;
use vstd::string::StringExecFns;
use vstd::utf8::encode_utf8;

verus! {

broadcast use vstd::seq::group_seq_axioms;

/// A line break character: carriage return or newline.
pub open spec fn is_line_break(c: char) -> bool {
    c == '\r' || c == '\n'
}

/// `cs` without its carriage returns and newlines.
pub open spec fn strip_line_breaks(cs: Seq<char>) -> Seq<char>
    decreases cs.len(),
{
    if cs.len() == 0 {
        Seq::empty()
    } else if is_line_break(cs.last()) {
        strip_line_breaks(cs.drop_last())
    } else {
        strip_line_breaks(cs.drop_last()).push(cs.last())
    }
}

/// `cs` with every space that follows a space left out, so that each run of
/// spaces becomes one space.
pub open spec fn squeeze_spaces(cs: Seq<char>) -> Seq<char>
    decreases cs.len(),
{
    if cs.len() == 0 {
        Seq::empty()
    } else if cs.len() >= 2 && cs[cs.len() - 2] == ' ' && cs.last() == ' ' {
        squeeze_spaces(cs.drop_last())
    } else {
        squeeze_spaces(cs.drop_last()).push(cs.last())
    }
}

/// A one-character text equals a one-character literal exactly when the
/// characters are equal.
proof fn lemma_single_char_eq(a: Seq<char>, x: char, b: Seq<char>, y: char)
    requires
        a == seq![x],
        b == seq![y],
    ensures
        (a == b) <==> (x == y),
{
    if a == b {
        assert(a[0] == b[0]);
    }
    if x == y {
        assert(a =~= b);
    }
}

/// Strips out newlines and carriage returns (`\n` and `\r`) and cuts runs of
/// spaces down to a single space character. Spaces on either side of a
/// stripped line break count as one run.
pub fn preprocess_string(string: &str) -> (r: String)
    ensures
        r@ == squeeze_spaces(strip_line_breaks(string@)),
{
    let ghost cs = string@;
    let bytes = string.as_bytes();
    let len = bytes.len();
    let cr = "\r";
    let lf = "\n";
    let sp = " ";
    proof {
        reveal_strlit("\r");
        reveal_strlit("\n");
        reveal_strlit(" ");
        lemma_prefix_bytes_mono(cs, 0, cs.len() as int);
        assert(cs.subrange(0, 0) =~= Seq::<char>::empty());
        assert(encode_utf8(Seq::<char>::empty()) =~= Seq::<u8>::empty());
    }
    let mut out = String::new();
    let mut last_was_space = false;
    let mut p: usize = 0;
    let ghost mut j: int = 0;
    while p < len
        invariant
            cs == string@,
            bytes@ == encode_utf8(cs),
            len == bytes@.len(),
            0 <= j <= cs.len(),
            p == prefix_bytes(cs, j),
            p <= len,
            len == prefix_bytes(cs, cs.len() as int),
            cr@ == seq!['\r'],
            lf@ == seq!['\n'],
            sp@ == seq![' '],
            out@ == squeeze_spaces(strip_line_breaks(cs.subrange(0, j))),
            last_was_space == {
                let f = strip_line_breaks(cs.subrange(0, j));
                f.len() > 0 && f.last() == ' '
            },
        decreases len - p,
    {
        proof {
            if j == cs.len() {
                assert(false);
            }
        }
        let w = char_width_at(bytes, p, Ghost(cs), Ghost(j));
        let c = slice_between(string, p, p + w, Ghost(j), Ghost(j + 1));
        proof {
            lemma_prefix_bytes_mono(cs, j + 1, cs.len() as int);
            assert(c@ == seq![cs[j]]);
            let pre = cs.subrange(0, j + 1);
            assert(pre.drop_last() =~= cs.subrange(0, j));
            assert(pre.last() == cs[j]);
        }
        let is_cr = same_text(c, cr);
        let is_lf = same_text(c, lf);
        let is_space = same_text(c, sp);
        proof {
            lemma_single_char_eq(c@, cs[j], cr@, '\r');
            lemma_single_char_eq(c@, cs[j], lf@, '\n');
            lemma_single_char_eq(c@, cs[j], sp@, ' ');
        }
        let ghost pre = cs.subrange(0, j + 1);
        let ghost g = strip_line_breaks(cs.subrange(0, j));
        if !(is_cr || is_lf) {
            if !(is_space && last_was_space) {
                out.append(c);
            }
            proof {
                let f = strip_line_breaks(pre);
                assert(f == g.push(cs[j]));
                assert(f.drop_last() =~= g);
                assert(f.last() == cs[j]);
                if g.len() > 0 {
                    assert(f[f.len() - 2] == g.last());
                }
                if !(is_space && last_was_space) {
                    assert(out@ =~= squeeze_spaces(g).push(cs[j]));
                }
                assert(out@ == squeeze_spaces(f));
            }
            last_was_space = is_space;
        } else {
            proof {
                assert(strip_line_breaks(pre) == g);
            }
        }
        p = p + w;
        proof {
            j = j + 1;
        }
    }
    proof {
        if j < cs.len() {
            lemma_prefix_bytes_mono(cs, j, cs.len() as int);
        }
        assert(cs.subrange(0, j) =~= cs);
    }
    out
}

} // verus!
