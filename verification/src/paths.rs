//! Paths as text: their total order and the derivation of a cache path.
//!
//! A path is the sequence of characters that names it. Two paths are the same
//! path exactly when they are the same text; no normalisation takes place.

use vstd::prelude::*;
use vstd::std_specs::iter::IteratorSpec;

verus! {

/// `a` and `b` agree on their first `k` characters, and at position `k`
/// either `a` has ended while `b` goes on, or `a` holds the smaller character.
pub open spec fn precedes_at(a: Seq<char>, b: Seq<char>, k: int) -> bool {
    &&& 0 <= k <= a.len()
    &&& k < b.len()
    &&& forall|i: int| 0 <= i < k ==> a[i] == b[i]
    &&& (k == a.len() || a[k] < b[k])
}

/// The natural order of paths: lexicographic by character.
pub open spec fn path_lt(a: Seq<char>, b: Seq<char>) -> bool {
    exists|k: int| precedes_at(a, b, k)
}

/// No path comes before itself.
pub proof fn lemma_path_lt_irreflexive(a: Seq<char>)
    ensures
        !path_lt(a, a),
{
}

/// The order of paths is transitive.
pub proof fn lemma_path_lt_transitive(a: Seq<char>, b: Seq<char>, c: Seq<char>)
    requires
        path_lt(a, b),
        path_lt(b, c),
    ensures
        path_lt(a, c),
{
    let k1 = choose|k: int| precedes_at(a, b, k);
    let k2 = choose|k: int| precedes_at(b, c, k);
    let k = if k1 <= k2 { k1 } else { k2 };
    assert(precedes_at(a, c, k));
}

/// No two paths come before each other.
pub proof fn lemma_path_lt_asymmetric(a: Seq<char>, b: Seq<char>)
    requires
        path_lt(a, b),
    ensures
        !path_lt(b, a),
{
    if path_lt(b, a) {
        lemma_path_lt_transitive(a, b, a);
    }
}

proof fn lemma_compare_prefix(a: Seq<char>, b: Seq<char>, n: int)
    requires
        0 <= n <= a.len(),
        n <= b.len(),
    ensures
        (forall|i: int| 0 <= i < n ==> a[i] == b[i]) || path_lt(a, b) || path_lt(b, a),
    decreases n,
{
    if n > 0 {
        lemma_compare_prefix(a, b, n - 1);
        if forall|i: int| 0 <= i < n - 1 ==> a[i] == b[i] {
            if a[n - 1] != b[n - 1] {
                if a[n - 1] < b[n - 1] {
                    assert(precedes_at(a, b, n - 1));
                } else {
                    assert(precedes_at(b, a, n - 1));
                }
            }
        }
    }
}

/// Of two different paths one comes before the other.
pub proof fn lemma_path_lt_total(a: Seq<char>, b: Seq<char>)
    ensures
        a == b || path_lt(a, b) || path_lt(b, a),
{
    if a.len() <= b.len() {
        lemma_compare_prefix(a, b, a.len() as int);
        if forall|i: int| 0 <= i < a.len() ==> a[i] == b[i] {
            if a.len() == b.len() {
                assert(a =~= b);
            } else {
                assert(precedes_at(a, b, a.len() as int));
            }
        }
    } else {
        lemma_compare_prefix(a, b, b.len() as int);
        if forall|i: int| 0 <= i < b.len() ==> a[i] == b[i] {
            assert(precedes_at(b, a, b.len() as int));
        }
    }
}

/// Whether path `a` comes before path `b`.
pub fn path_before(a: &str, b: &str) -> (r: bool)
    ensures
        r == path_lt(a@, b@),
{
    let mut xs = a.chars();
    let mut ys = b.chars();
    let ghost mut i: int = 0;
    proof {
        assert(a@.skip(0) =~= a@);
        assert(b@.skip(0) =~= b@);
    }
    loop
        invariant
            0 <= i <= a@.len(),
            i <= b@.len(),
            xs.remaining() == a@.skip(i),
            ys.remaining() == b@.skip(i),
            forall|j: int| 0 <= j < i ==> a@[j] == b@[j],
        decreases a@.len() - i,
    {
        let x = xs.next();
        let y = ys.next();
        match (x, y) {
            (Some(c), Some(d)) => {
                proof {
                    assert(c == a@[i]);
                    assert(d == b@[i]);
                }
                if c != d {
                    proof {
                        if c < d {
                            assert(precedes_at(a@, b@, i));
                        } else {
                            assert forall|k: int| !precedes_at(a@, b@, k) by {
                                if precedes_at(a@, b@, k) {
                                    if k < i {
                                        assert(a@[k] == b@[k]);
                                    } else if k > i {
                                        assert(a@[i] == b@[i]);
                                    }
                                }
                            }
                        }
                    }
                    return c < d;
                }
                proof {
                    assert(a@.skip(i).drop_first() =~= a@.skip(i + 1));
                    assert(b@.skip(i).drop_first() =~= b@.skip(i + 1));
                    i = i + 1;
                }
            },
            (None, Some(_)) => {
                proof {
                    assert(precedes_at(a@, b@, i));
                }
                return true;
            },
            (_, None) => {
                proof {
                    assert forall|k: int| !precedes_at(a@, b@, k) by {
                        if precedes_at(a@, b@, k) {
                            assert(a@[k] == b@[k]);
                        }
                    }
                }
                return false;
            },
        }
    }
}

/// The path that results from joining `source` onto `root`: an absolute
/// `source` replaces `root`; otherwise `source` follows `root`, with one
/// separator between them unless `root` is empty or already ends in one.
pub open spec fn joined(root: Seq<char>, source: Seq<char>) -> Seq<char> {
    if source.len() > 0 && source[0] == '/' {
        source
    } else if root.len() == 0 || root.last() == '/' {
        root + source
    } else {
        root + seq!['/'] + source
    }
}

/// Joins `source` onto `root`.
pub fn join_path(root: &str, source: &str) -> (r: String)
    ensures
        r@ == joined(root@, source@),
{
    let n = root.unicode_len();
    if source.unicode_len() > 0 && source.get_char(0) == '/' {
        return String::from_str(source);
    }
    let mut out = String::from_str(root);
    if n > 0 && root.get_char(n - 1) != '/' {
        proof {
            reveal_strlit("/");
            assert("/"@ =~= seq!['/']);
        }
        out.append("/");
    }
    out.append(source);
    out
}

/// A path as it is shown to a reader: what the standard library's `Debug`
/// formatting of a string makes of the text, which sets it in double quotes
/// and escapes what would not print.
pub uninterp spec fn shown(path: Seq<char>) -> Seq<char>;

/// Formats `path` by `format!` with `{:?}`, which is the standard library's
/// `Debug` formatting of `str`. Nothing is proved of that call: the contract
/// only gives its result the name `shown`, as a function of the text alone.
#[verifier::external_body]
pub(crate) fn show_path(path: &str) -> (r: String)
    ensures
        r@ == shown(path@),
{
    format!("{:?}", path)
}

} // verus!
