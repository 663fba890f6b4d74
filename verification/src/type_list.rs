//! The list of the types that occur in a document.
//!
//! The list shows every type once, as text, in lexicographic order. This
//! module says what that means, proves that there is exactly one such list,
//! and proves that tags are ordered as text exactly as the big-endian
//! numbers of their bytes are.
use vstd::prelude::*;
use crate::chunk::ChunkView;
use crate::chunk_type::tag_text;
use crate::wire::be_value;

verus! {

/// What a list of strings says.
pub open spec fn texts<T: View<V = Seq<char>>>(names: Seq<T>) -> Seq<Seq<char>> {
    names.map_values(|s: T| s@)
}

/// Lexicographic order on text: the first character that differs decides,
/// and a proper prefix comes first.
pub open spec fn text_less(a: Seq<char>, b: Seq<char>) -> bool
    decreases a.len(),
{
    if b.len() == 0 {
        false
    } else if a.len() == 0 {
        true
    } else if a[0] == b[0] {
        text_less(a.drop_first(), b.drop_first())
    } else {
        a[0] < b[0]
    }
}

/// `name` is the type of one of `chunks`, as text.
pub open spec fn names_a_type(chunks: Seq<ChunkView>, name: Seq<char>) -> bool {
    exists|k: int| 0 <= k < chunks.len() && name == tag_text((#[trigger] chunks[k]).type_)
}

/// `names` lists the types of `chunks`: every type once, as text, in
/// lexicographic order.
pub open spec fn is_type_list(names: Seq<Seq<char>>, chunks: Seq<ChunkView>) -> bool {
    &&& text_increasing(names)
    &&& forall|i: int| 0 <= i < names.len() ==> names_a_type(chunks, #[trigger] names[i])
    &&& forall|k: int|
        0 <= k < chunks.len() ==> names.contains(tag_text((#[trigger] chunks[k]).type_))
}

/// In lexicographic order: each text before the next, so nothing twice.
pub open spec fn text_increasing(names: Seq<Seq<char>>) -> bool {
    forall|i: int, j: int|
        0 <= i < j < names.len() ==> text_less(#[trigger] names[i], #[trigger] names[j])
}

/// No text comes before itself.
pub proof fn lemma_text_less_irreflexive(a: Seq<char>)
    ensures
        !text_less(a, a),
    decreases a.len(),
{
    if a.len() > 0 {
        lemma_text_less_irreflexive(a.drop_first());
    }
}

/// What comes before a text comes before all that the text comes before.
pub proof fn lemma_text_less_transitive(a: Seq<char>, b: Seq<char>, c: Seq<char>)
    requires
        text_less(a, b),
        text_less(b, c),
    ensures
        text_less(a, c),
    decreases a.len(),
{
    if a.len() > 0 && a[0] == b[0] && b[0] == c[0] {
        lemma_text_less_transitive(a.drop_first(), b.drop_first(), c.drop_first());
    }
}

/// Two lists in lexicographic order that hold the same texts are the same
/// list.
pub proof fn lemma_ordered_lists_equal(a: Seq<Seq<char>>, b: Seq<Seq<char>>)
    requires
        text_increasing(a),
        text_increasing(b),
        forall|x: Seq<char>| a.contains(x) <==> b.contains(x),
    ensures
        a == b,
    decreases a.len(),
{
    if a.len() == 0 {
        if b.len() > 0 {
            assert(b.contains(b[0]));
        }
        assert(a =~= b);
    } else {
        let top = a.last();
        assert(a.contains(top));
        assert(b.contains(top));
        let j = choose|j: int| 0 <= j < b.len() && b[j] == top;
        assert(b.contains(b.last()));
        let i = choose|i: int| 0 <= i < a.len() && a[i] == b.last();
        if j < b.len() - 1 {
            // `top` stands before the last of `b`, which stands in `a` at or
            // before `top`.
            if i < a.len() - 1 {
                lemma_text_less_transitive(top, b.last(), top);
            }
            lemma_text_less_irreflexive(top);
        }
        assert(b.last() == top);
        let a0 = a.drop_last();
        let b0 = b.drop_last();
        assert forall|x: Seq<char>| a0.contains(x) <==> b0.contains(x) by {
            if a0.contains(x) {
                let m = choose|m: int| 0 <= m < a0.len() && a0[m] == x;
                assert(a[m] == x);
                assert(a.contains(x));
                let n = choose|n: int| 0 <= n < b.len() && b[n] == x;
                if n == b.len() - 1 {
                    lemma_text_less_irreflexive(top);
                }
                assert(b0[n] == x);
            }
            if b0.contains(x) {
                let n = choose|n: int| 0 <= n < b0.len() && b0[n] == x;
                assert(b[n] == x);
                assert(b.contains(x));
                let m = choose|m: int| 0 <= m < a.len() && a[m] == x;
                if m == a.len() - 1 {
                    lemma_text_less_irreflexive(top);
                }
                assert(a0[m] == x);
            }
        }
        assert(text_increasing(a0)) by {
            assert forall|i: int, j: int| 0 <= i < j < a0.len() implies text_less(
                #[trigger] a0[i],
                #[trigger] a0[j],
            ) by {
                assert(a0[i] == a[i] && a0[j] == a[j]);
            }
        }
        assert(text_increasing(b0)) by {
            assert forall|i: int, j: int| 0 <= i < j < b0.len() implies text_less(
                #[trigger] b0[i],
                #[trigger] b0[j],
            ) by {
                assert(b0[i] == b[i] && b0[j] == b[j]);
            }
        }
        lemma_ordered_lists_equal(a0, b0);
        assert(a =~= a0.push(top));
        assert(b =~= b0.push(top));
    }
}

/// The chunks of a document have exactly one type list.
pub proof fn lemma_type_list_unique(a: Seq<Seq<char>>, b: Seq<Seq<char>>, chunks: Seq<ChunkView>)
    requires
        is_type_list(a, chunks),
        is_type_list(b, chunks),
    ensures
        a == b,
{
    assert forall|x: Seq<char>| a.contains(x) <==> b.contains(x) by {
        if a.contains(x) {
            let i = choose|i: int| 0 <= i < a.len() && a[i] == x;
            assert(names_a_type(chunks, a[i]));
        }
        if b.contains(x) {
            let i = choose|i: int| 0 <= i < b.len() && b[i] == x;
            assert(names_a_type(chunks, b[i]));
        }
    }
    lemma_ordered_lists_equal(a, b);
}

/// Tags of ASCII bytes are ordered as text exactly as their big-endian
/// numbers are ordered.
pub proof fn lemma_key_order(a: Seq<u8>, b: Seq<u8>)
    requires
        a.len() == 4,
        b.len() == 4,
        forall|i: int| 0 <= i < 4 ==> a[i] < 0x80,
        forall|i: int| 0 <= i < 4 ==> b[i] < 0x80,
    ensures
        be_value(a) < be_value(b) <==> text_less(tag_text(a), tag_text(b)),
{
    let s = tag_text(a);
    let t = tag_text(b);
    let s1 = s.drop_first();
    let t1 = t.drop_first();
    let s2 = s1.drop_first();
    let t2 = t1.drop_first();
    let s3 = s2.drop_first();
    let t3 = t2.drop_first();
    let s4 = s3.drop_first();
    let t4 = t3.drop_first();
    assert(s[0] == a[0] as char && s1[0] == a[1] as char && s2[0] == a[2] as char && s3[0]
        == a[3] as char);
    assert(t[0] == b[0] as char && t1[0] == b[1] as char && t2[0] == b[2] as char && t3[0]
        == b[3] as char);
    assert(s4.len() == 0 && t4.len() == 0);
    assert(!text_less(s4, t4));
    assert(text_less(s3, t3) <==> a[3] < b[3]);
    assert(text_less(s2, t2) <==> (a[2] < b[2] || (a[2] == b[2] && a[3] < b[3])));
    assert(text_less(s1, t1) <==> (a[1] < b[1] || (a[1] == b[1] && text_less(s2, t2))));
    assert(text_less(s, t) <==> (a[0] < b[0] || (a[0] == b[0] && text_less(s1, t1))));
}

} // verus!
