//! The identifier under which a type is generated.
use vstd::prelude::*;

verus! {

/// `s` with every occurrence of `pat`, scanned from the left without overlap,
/// replaced by `rep`.
pub open spec fn replace_all(s: Seq<char>, pat: Seq<char>, rep: Seq<char>) -> Seq<char>
    recommends
        pat.len() > 0,
    decreases s.len(),
{
    if s.len() == 0 || pat.len() == 0 {
        s
    } else if pat.len() <= s.len() && s.subrange(0, pat.len() as int) == pat {
        rep + replace_all(s.subrange(pat.len() as int, s.len() as int), pat, rep)
    } else {
        seq![s[0]] + replace_all(s.drop_first(), pat, rep)
    }
}

/// The word that is replaced in every generated identifier.
pub open spec fn query_word() -> Seq<char> {
    seq!['Q', 'u', 'e', 'r', 'y']
}

/// The word that takes its place.
pub open spec fn client_word() -> Seq<char> {
    seq!['C', 'l', 'i', 'e', 'n', 't']
}

/// Whether a display name is that of an introspection meta-type.
pub open spec fn is_meta_name(name: Seq<char>) -> bool {
    name.len() > 0 && name[0] == '_'
}

/// The generated identifier for a type with display name `name`, or `None`
/// where the type is never generated.
pub open spec fn identifier_of(name: Option<Seq<char>>) -> Option<Seq<char>> {
    match name {
        None => None,
        Some(n) => if is_meta_name(n) {
            None
        } else {
            Some(replace_all(n, query_word(), client_word()))
        },
    }
}

/// `s` with every `Query` replaced by `Client`.
pub fn replace_query(s: &str) -> (r: String)
    ensures
        r@ == replace_all(s@, query_word(), client_word()),
{
    let n = s.unicode_len();
    let mut out = String::new();
    let mut i: usize = 0;
    proof {
        assert(s@.subrange(0, n as int) =~= s@);
        assert(out@ + s@ =~= s@);
    }
    while i < n
        invariant
            n == s@.len(),
            i <= n,
            out@ + replace_all(s@.subrange(i as int, n as int), query_word(), client_word())
                == replace_all(s@, query_word(), client_word()),
        decreases n - i,
    {
        let rest = Ghost(s@.subrange(i as int, n as int));
        if n - i >= 5 && matches_query_at(s, i) {
            proof {
                assert(rest@.subrange(0, 5) =~= s@.subrange(i as int, i + 5));
                assert(rest@.subrange(5, rest@.len() as int) =~= s@.subrange(i + 5, n as int));
            }
            out.append("Client");
            proof {
                reveal_strlit("Client");
                assert("Client"@ =~= client_word());
            }
            i = i + 5;
        } else {
            let c = s.substring_char(i, i + 1);
            proof {
                assert(rest@.drop_first() =~= s@.subrange(i + 1, n as int));
                if 5 <= rest@.len() {
                    assert(rest@.subrange(0, 5) =~= s@.subrange(i as int, i + 5));
                }
                assert(c@ =~= seq![rest@[0]]);
            }
            out.append(c);
            i = i + 1;
        }
        proof {
            assert(out@ + replace_all(s@.subrange(i as int, n as int), query_word(), client_word())
                =~= replace_all(s@, query_word(), client_word()));
        }
    }
    proof {
        assert(s@.subrange(n as int, n as int) =~= Seq::<char>::empty());
    }
    out
}

/// Whether the five characters of `s` from `i` on spell `Query`.
fn matches_query_at(s: &str, i: usize) -> (r: bool)
    requires
        i + 5 <= s@.len(),
        s@.len() <= usize::MAX,
    ensures
        r == (s@.subrange(i as int, i + 5) == query_word()),
{
    let r = s.get_char(i) == 'Q' && s.get_char(i + 1) == 'u' && s.get_char(i + 2) == 'e'
        && s.get_char(i + 3) == 'r' && s.get_char(i + 4) == 'y';
    proof {
        if r {
            assert(s@.subrange(i as int, i + 5) =~= query_word());
        } else {
            if s@.subrange(i as int, i + 5) == query_word() {
                assert(s@.subrange(i as int, i + 5)[0] == 'Q');
                assert(s@.subrange(i as int, i + 5)[1] == 'u');
                assert(s@.subrange(i as int, i + 5)[2] == 'e');
                assert(s@.subrange(i as int, i + 5)[3] == 'r');
                assert(s@.subrange(i as int, i + 5)[4] == 'y');
            }
        }
    }
    r
}

} // verus!
