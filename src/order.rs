//! Ordering of text by code points, the order in which listings are returned.
use vstd::prelude::*;
use vstd::string::*;

verus! {

/// `a` and `b` agree before position `i`, and at `i` either `a` has ended while
/// `b` goes on, or `a` holds the smaller code point.
pub open spec fn first_difference_at(a: Seq<char>, b: Seq<char>, i: int) -> bool {
    &&& 0 <= i <= a.len()
    &&& i <= b.len()
    &&& forall|k: int| 0 <= k < i ==> a[k] == b[k]
    &&& ((i == a.len() && i < b.len()) || (i < a.len() && i < b.len() && (a[i] as u32) < (b[i] as u32)))
}

/// Strict lexicographic order on code points (for UTF-8 text this is also the
/// byte order).
pub open spec fn text_lt(a: Seq<char>, b: Seq<char>) -> bool {
    exists|i: int| first_difference_at(a, b, i)
}

pub proof fn lemma_text_lt_asym(a: Seq<char>, b: Seq<char>)
    requires
        text_lt(a, b),
    ensures
        !text_lt(b, a),
        a != b,
{
    let i = choose|i: int| first_difference_at(a, b, i);
    if a == b {
        assert(false);
    }
    if text_lt(b, a) {
        let j = choose|j: int| first_difference_at(b, a, j);
        if i < j {
            assert(b[i] == a[i]);
        } else if j < i {
            assert(a[j] == b[j]);
        }
    }
}

pub proof fn lemma_text_lt_trans(a: Seq<char>, b: Seq<char>, c: Seq<char>)
    requires
        text_lt(a, b),
        text_lt(b, c),
    ensures
        text_lt(a, c),
{
    let i = choose|i: int| first_difference_at(a, b, i);
    let j = choose|j: int| first_difference_at(b, c, j);
    if i < j {
        assert(first_difference_at(a, c, i));
    } else if j < i {
        assert(first_difference_at(a, c, j));
    } else {
        assert(first_difference_at(a, c, i));
    }
}

/// Three-way comparison of two texts: -1, 0 or 1.
pub fn compare_text(a: &str, b: &str) -> (r: i8)
    ensures
        r == -1 || r == 0 || r == 1,
        r == -1 <==> text_lt(a@, b@),
        r == 0 <==> a@ == b@,
        r == 1 <==> text_lt(b@, a@),
{
    let la = a.unicode_len();
    let lb = b.unicode_len();
    let mut i: usize = 0;
    while i < la && i < lb
        invariant
            i <= la,
            i <= lb,
            la == a@.len(),
            lb == b@.len(),
            forall|k: int| 0 <= k < i ==> a@[k] == b@[k],
        decreases la - i,
    {
        let ca = a.get_char(i);
        let cb = b.get_char(i);
        if (ca as u32) < (cb as u32) {
            proof {
                assert(first_difference_at(a@, b@, i as int));
                lemma_text_lt_asym(a@, b@);
            }
            return -1;
        }
        if (cb as u32) < (ca as u32) {
            proof {
                assert(first_difference_at(b@, a@, i as int));
                lemma_text_lt_asym(b@, a@);
            }
            return 1;
        }
        i += 1;
    }
    if la < lb {
        proof {
            assert(first_difference_at(a@, b@, i as int));
            lemma_text_lt_asym(a@, b@);
        }
        -1
    } else if lb < la {
        proof {
            assert(first_difference_at(b@, a@, i as int));
            lemma_text_lt_asym(b@, a@);
        }
        1
    } else {
        proof {
            assert(a@ =~= b@);
            if text_lt(a@, b@) {
                lemma_text_lt_asym(a@, b@);
            }
        }
        0
    }
}

} // verus!
