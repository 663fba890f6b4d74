//! The in-memory form of a PNG file: its chunks, in file order.
use std::borrow::Cow;
use vstd::prelude::*;
use crate::chunk::{lossy_text, Chunk, ChunkView};
use crate::chunk_type::{
    bytes_equal, lemma_ascii_is_utf8, lemma_letters_are_ascii, tag_text, valid_tag,
};
use crate::type_list::{is_type_list, lemma_key_order, names_a_type, text_less, texts};
use crate::wire::{be_value, lemma_be_bytes_of_value, signature};

verus! {

/// The contents of a list of chunks.
pub open spec fn views(chunks: Seq<Chunk>) -> Seq<ChunkView> {
    chunks.map_values(|c: Chunk| c@)
}

/// The contents of a list of borrowed chunks.
pub open spec fn ref_views(chunks: Seq<&Chunk>) -> Seq<ChunkView> {
    chunks.map_values(|c: &Chunk| c@)
}

/// The test for a chunk to have the type `type_`.
pub open spec fn of_type(type_: Seq<u8>) -> spec_fn(ChunkView) -> bool {
    |c: ChunkView| c.type_ == type_
}

/// The test for a chunk to have another type than `type_`.
pub open spec fn not_of_type(type_: Seq<u8>) -> spec_fn(ChunkView) -> bool {
    |c: ChunkView| c.type_ != type_
}

/// The chunk of type `type_` that comes last in `chunks`, if there is one.
pub open spec fn last_of_type(chunks: Seq<ChunkView>, type_: Seq<u8>) -> Option<ChunkView> {
    let matching = chunks.filter(of_type(type_));
    if matching.len() == 0 {
        None
    } else {
        Some(matching.last())
    }
}

/// The signature constant holds the bytes that the wire format names.
pub proof fn lemma_header_is_signature()
    ensures
        Png::HEADER@ == signature(),
{
    assert(Png::HEADER@ =~= signature());
}

/// Filtering a sequence with one more element at its end.
pub proof fn lemma_filter_push<A>(s: Seq<A>, x: A, pred: spec_fn(A) -> bool)
    ensures
        s.push(x).filter(pred) == if pred(x) {
            s.filter(pred).push(x)
        } else {
            s.filter(pred)
        },
{
    reveal(Seq::filter);
    assert(s.push(x).drop_last() =~= s);
}

/// Removing the chunks of a type a second time removes nothing: the
/// sequence stays as the first removal left it, and the count is 0.
pub proof fn lemma_remove_twice(chunks: Seq<ChunkView>, type_: Seq<u8>)
    ensures
        ({
            let once = chunks.filter(not_of_type(type_));
            let twice = once.filter(not_of_type(type_));
            twice == once && once.len() - twice.len() == 0
        }),
    decreases chunks.len(),
{
    let keep = not_of_type(type_);
    if chunks.len() == 0 {
        reveal(Seq::filter);
        assert(chunks.filter(keep) =~= chunks);
    } else {
        let front = chunks.drop_last();
        let last = chunks.last();
        lemma_remove_twice(front, type_);
        assert(chunks =~= front.push(last));
        lemma_filter_push(front, last, keep);
        if keep(last) {
            lemma_filter_push(front.filter(keep), last, keep);
        }
    }
}

/// After two chunks of one type were appended, the search by that type
/// finds the second.
pub proof fn lemma_last_appended_wins(
    chunks: Seq<ChunkView>,
    first: ChunkView,
    second: ChunkView,
    type_: Seq<u8>,
)
    requires
        first.type_ == type_,
        second.type_ == type_,
    ensures
        last_of_type(chunks.push(first).push(second), type_) == Some(second),
{
    lemma_filter_push(chunks.push(first), second, of_type(type_));
}

/// The type of the chunk at `index`, as a number.
spec fn key_at(chunks: Seq<ChunkView>, index: int) -> u32 {
    be_value(chunks[index].type_)
}

/// The type of the chunk at `j` is the type of a chunk that `places`
/// points at.
spec fn listed(chunks: Seq<ChunkView>, places: Seq<usize>, j: int) -> bool {
    exists|m: int|
        0 <= m < places.len() && key_at(chunks, #[trigger] places[m] as int) == key_at(chunks, j)
}

/// `places` points at chunks among the first `upto`, in the strict order
/// of their types.
spec fn ordered_places(chunks: Seq<ChunkView>, places: Seq<usize>, upto: int) -> bool {
    &&& forall|m: int| 0 <= m < places.len() ==> 0 <= #[trigger] places[m] < upto
    &&& forall|m: int, n: int|
        0 <= m < n < places.len() ==> key_at(chunks, #[trigger] places[m] as int) < key_at(
            chunks,
            #[trigger] places[n] as int,
        )
}

/// `places` points at one chunk for each type among the first `upto`
/// chunks, in the order of the types.
spec fn sorted_places(chunks: Seq<ChunkView>, places: Seq<usize>, upto: int) -> bool {
    &&& 0 <= upto <= chunks.len()
    &&& ordered_places(chunks, places, upto)
    &&& forall|j: int| 0 <= j < upto ==> #[trigger] listed(chunks, places, j)
}

/// A list of places stays one when the next chunk has a type that is
/// listed.
proof fn lemma_type_is_listed(chunks: Seq<ChunkView>, places: Seq<usize>, p: int, index: int)
    requires
        0 <= index < chunks.len(),
        sorted_places(chunks, places, index),
        0 <= p < places.len(),
        key_at(chunks, places[p] as int) == key_at(chunks, index),
    ensures
        sorted_places(chunks, places, index + 1),
{
    assert(listed(chunks, places, index));
    assert forall|j: int| 0 <= j < index + 1 implies #[trigger] listed(chunks, places, j) by {
        if j < index {
            assert(listed(chunks, places, j));
        }
    }
}

/// A list of places stays one when the place of the next chunk is put
/// where the order of the types wants it.
proof fn lemma_place_inserted(chunks: Seq<ChunkView>, places: Seq<usize>, p: int, index: usize)
    requires
        0 <= index < chunks.len(),
        sorted_places(chunks, places, index as int),
        0 <= p <= places.len(),
        forall|m: int|
            0 <= m < p ==> key_at(chunks, #[trigger] places[m] as int) < key_at(
                chunks,
                index as int,
            ),
        p < places.len() ==> key_at(chunks, index as int) < key_at(chunks, places[p] as int),
    ensures
        sorted_places(chunks, places.insert(p, index), index + 1),
{
    let after = places.insert(p, index);
    let key = key_at(chunks, index as int);
    assert forall|m: int| 0 <= m < after.len() implies 0 <= #[trigger] after[m] < index + 1 by {
        if m < p {
            assert(after[m] == places[m]);
        } else if m > p {
            assert(after[m] == places[m - 1]);
        }
    }
    assert forall|m: int, n: int| 0 <= m < n < after.len() implies key_at(
        chunks,
        #[trigger] after[m] as int,
    ) < key_at(chunks, #[trigger] after[n] as int) by {
        lemma_inserted_order(chunks, places, p, index, m, n);
    }
    assert forall|j: int| 0 <= j < index + 1 implies #[trigger] listed(chunks, after, j) by {
        if j == index {
            assert(key_at(chunks, after[p] as int) == key_at(chunks, j));
        } else {
            assert(listed(chunks, places, j));
            let m = choose|m: int|
                0 <= m < places.len() && key_at(chunks, #[trigger] places[m] as int) == key_at(
                    chunks,
                    j,
                );
            let am = if m < p {
                m
            } else {
                m + 1
            };
            assert(after[am] == places[m]);
        }
    }
}

/// Two places of the list after the insertion stand in the order of their
/// types.
proof fn lemma_inserted_order(
    chunks: Seq<ChunkView>,
    places: Seq<usize>,
    p: int,
    index: usize,
    m: int,
    n: int,
)
    requires
        ordered_places(chunks, places, index as int),
        0 <= p <= places.len(),
        forall|i: int|
            0 <= i < p ==> key_at(chunks, #[trigger] places[i] as int) < key_at(
                chunks,
                index as int,
            ),
        p < places.len() ==> key_at(chunks, index as int) < key_at(chunks, places[p] as int),
        0 <= m < n < places.len() + 1,
    ensures
        key_at(chunks, places.insert(p, index)[m] as int) < key_at(
            chunks,
            places.insert(p, index)[n] as int,
        ),
{
    let after = places.insert(p, index);
    if n < p {
        assert(after[m] == places[m] && after[n] == places[n]);
    } else if n == p {
        assert(after[m] == places[m]);
    } else if m < p {
        assert(after[m] == places[m] && after[n] == places[n - 1]);
    } else if m == p {
        assert(after[n] == places[n - 1]);
        if n - 1 > p {
            assert(key_at(chunks, places[p] as int) < key_at(chunks, places[n - 1] as int));
        }
    } else {
        assert(after[m] == places[m - 1] && after[n] == places[n - 1]);
    }
}

/// Every chunk has a valid type.
spec fn all_valid(chunks: Seq<ChunkView>) -> bool {
    forall|j: int| 0 <= j < chunks.len() ==> valid_tag((#[trigger] chunks[j]).type_)
}

/// The texts of the types at `places` are the type list of `chunks`.
proof fn lemma_names_at_places(
    chunks: Seq<ChunkView>,
    places: Seq<usize>,
    names: Seq<Seq<char>>,
)
    requires
        all_valid(chunks),
        sorted_places(chunks, places, chunks.len() as int),
        names.len() == places.len(),
        forall|m: int|
            0 <= m < names.len() ==> #[trigger] names[m] == tag_text(chunks[places[m] as int].type_),
    ensures
        is_type_list(names, chunks),
{
    assert forall|a: int, b: int| 0 <= a < b < names.len() implies text_less(
        #[trigger] names[a],
        #[trigger] names[b],
    ) by {
        let s = chunks[places[a] as int].type_;
        let t = chunks[places[b] as int].type_;
        assert(key_at(chunks, places[a] as int) < key_at(chunks, places[b] as int));
        lemma_letters_are_ascii(s);
        lemma_letters_are_ascii(t);
        lemma_key_order(s, t);
    }
    assert forall|a: int| 0 <= a < names.len() implies names_a_type(chunks, #[trigger] names[a]) by {
        assert(names[a] == tag_text(chunks[places[a] as int].type_));
    }
    assert forall|j: int| 0 <= j < chunks.len() implies names.contains(
        tag_text((#[trigger] chunks[j]).type_),
    ) by {
        assert(listed(chunks, places, j));
        let m = choose|m: int|
            0 <= m < places.len() && key_at(chunks, #[trigger] places[m] as int) == key_at(
                chunks,
                j,
            );
        lemma_be_bytes_of_value(chunks[j].type_);
        lemma_be_bytes_of_value(chunks[places[m] as int].type_);
        assert(names[m] == tag_text(chunks[j].type_));
    }
}

/// An ordered collection of chunks. Several chunks may have the same type.
#[derive(Debug)]
pub struct Png {
    chunks: Vec<Chunk>,
}

impl View for Png {
    type V = Seq<ChunkView>;

    closed spec fn view(&self) -> Seq<ChunkView> {
        views(self.chunks@)
    }
}

impl Png {
    /// The signature that starts every PNG file.
    pub const HEADER: [u8; 8] = [137, 80, 78, 71, 13, 10, 26, 10];

    /// A document that holds `chunks` in the order given.
    pub fn from_chunks(chunks: Vec<Chunk>) -> (png: Self)
        ensures
            png@ == views(chunks@),
    {
        Png { chunks }
    }

    /// Adds `chunk` at the end.
    pub fn append_chunk(&mut self, chunk: Chunk)
        ensures
            final(self)@ == old(self)@.push(chunk@),
    {
        self.chunks.push(chunk);
        assert(self@ =~= old(self)@.push(chunk@));
    }

    /// Removes every chunk whose type is `type_` and returns how many
    /// there were. The chunks that stay keep their order.
    pub fn remove_all(&mut self, type_: &[u8]) -> (removed: usize)
        ensures
            final(self)@ == old(self)@.filter(not_of_type(type_@)),
            removed == old(self)@.len() - final(self)@.len(),
    {
        let mut all: Vec<Chunk> = Vec::new();
        std::mem::swap(&mut self.chunks, &mut all);
        let len = all.len();
        let ghost before = views(all@);
        let ghost keep = not_of_type(type_@);
        assert(before.take(0) =~= Seq::<ChunkView>::empty());
        assert(before.take(0).filter(keep) =~= Seq::<ChunkView>::empty()) by {
            reveal(Seq::filter);
        }
        for chunk in iter: all
            invariant
                views(iter.seq()) == before,
                keep == not_of_type(type_@),
                self@ == before.take(iter.index() as int).filter(keep),
                len == before.len(),
        {
            let ghost done = before.take(iter.index() as int);
            proof {
                lemma_filter_push(done, chunk@, keep);
                assert(before.take(iter.index() + 1) =~= done.push(chunk@));
                done.lemma_filter_len(keep);
            }
            if !bytes_equal(chunk.type_.as_bytes(), type_) {
                self.chunks.push(chunk);
                assert(self@ =~= done.filter(keep).push(chunk@));
            }
        }
        assert(before.take(before.len() as int) =~= before);
        proof {
            before.lemma_filter_len(keep);
        }
        len - self.chunks.len()
    }

    /// The chunks of type `type_`, in file order.
    pub fn chunks_by_type(&self, type_: &[u8]) -> (found: Vec<&Chunk>)
        ensures
            ref_views(found@) == self@.filter(of_type(type_@)),
    {
        let mut found: Vec<&Chunk> = Vec::new();
        let ghost wanted = of_type(type_@);
        assert(self@.take(0).filter(wanted) =~= Seq::<ChunkView>::empty()) by {
            reveal(Seq::filter);
        }
        let mut i: usize = 0;
        while i < self.chunks.len()
            invariant
                i <= self.chunks@.len(),
                wanted == of_type(type_@),
                ref_views(found@) == self@.take(i as int).filter(wanted),
            decreases self.chunks@.len() - i,
        {
            let chunk = &self.chunks[i];
            proof {
                lemma_filter_push(self@.take(i as int), chunk@, wanted);
                assert(self@.take(i + 1) =~= self@.take(i as int).push(chunk@));
            }
            let ghost before = ref_views(found@);
            if bytes_equal(chunk.type_.as_bytes(), type_) {
                found.push(chunk);
                assert(ref_views(found@) =~= before.push(chunk@));
            }
            i += 1;
        }
        assert(self@.take(self@.len() as int) =~= self@);
        found
    }

    /// The chunk of type `type_` that was added last, if there is one.
    /// The search starts at the end, where a chunk that was just appended
    /// is found at once.
    pub fn chunk_by_type(&self, type_: &[u8]) -> (found: Option<&Chunk>)
        ensures
            match last_of_type(self@, type_@) {
                Some(chunk) => found is Some && found.unwrap()@ == chunk,
                None => found is None,
            },
    {
        let ghost wanted = of_type(type_@);
        let mut i: usize = self.chunks.len();
        assert(self@.take(i as int) =~= self@);
        while i > 0
            invariant
                i <= self.chunks@.len(),
                wanted == of_type(type_@),
                self@.filter(wanted) == self@.take(i as int).filter(wanted),
            decreases i,
        {
            i -= 1;
            let chunk = &self.chunks[i];
            proof {
                lemma_filter_push(self@.take(i as int), chunk@, wanted);
                assert(self@.take(i + 1) =~= self@.take(i as int).push(chunk@));
            }
            if bytes_equal(chunk.type_.as_bytes(), type_) {
                return Some(chunk);
            }
        }
        assert(self@.take(0).filter(wanted) =~= Seq::<ChunkView>::empty()) by {
            reveal(Seq::filter);
        }
        None
    }

    /// Notes the type of the chunk at `index` in `places`, which lists the
    /// types of the chunks before it: nothing changes if the type is
    /// listed, else `index` goes where the order of the types puts it.
    fn note_type(&self, places: &mut Vec<usize>, index: usize)
        requires
            index < self@.len(),
            sorted_places(self@, old(places)@, index as int),
        ensures
            sorted_places(self@, final(places)@, index + 1),
            valid_tag(self@[index as int].type_),
    {
        let key = self.chunks[index].type_.key();
        let mut p: usize = 0;
        while p < places.len() && self.chunks[places[p]].type_.key() < key
            invariant
                p <= places@.len(),
                places@ == old(places)@,
                index < self@.len(),
                self@ == views(self.chunks@),
                sorted_places(self@, places@, index as int),
                key == key_at(self@, index as int),
                forall|m: int| 0 <= m < p ==> key_at(self@, #[trigger] places@[m] as int) < key,
            decreases places@.len() - p,
        {
            p += 1;
        }
        if p < places.len() && self.chunks[places[p]].type_.key() == key {
            proof {
                lemma_type_is_listed(self@, places@, p as int, index as int);
            }
            return ;
        }
        proof {
            lemma_place_inserted(self@, places@, p as int, index);
        }
        places.insert(p, index);
    }

    /// The types that occur in the document, as text: sorted
    /// lexicographically, each one once.
    pub fn chunk_types(&self) -> (names: Vec<Cow<'_, str>>)
        ensures
            is_type_list(texts(names@), self@),
    {
        let mut places: Vec<usize> = Vec::new();
        let mut k: usize = 0;
        while k < self.chunks.len()
            invariant
                k <= self@.len(),
                self@.len() == self.chunks@.len(),
                sorted_places(self@, places@, k as int),
                forall|j: int| 0 <= j < k ==> valid_tag((#[trigger] self@[j]).type_),
            decreases self@.len() - k,
        {
            self.note_type(&mut places, k);
            k += 1;
        }

        let mut names: Vec<Cow<'_, str>> = Vec::new();
        let mut m: usize = 0;
        while m < places.len()
            invariant
                m <= places@.len(),
                names@.len() == m,
                self@ == views(self.chunks@),
                all_valid(self@),
                sorted_places(self@, places@, self@.len() as int),
                forall|i: int|
                    0 <= i < m ==> (#[trigger] names@[i])@ == tag_text(
                        self@[places@[i] as int].type_,
                    ),
            decreases places@.len() - m,
        {
            let tag = self.chunks[places[m]].type_.as_bytes();
            proof {
                lemma_letters_are_ascii(tag@);
                lemma_ascii_is_utf8(tag@);
            }
            names.push(lossy_text(tag));
            m += 1;
        }
        proof {
            lemma_names_at_places(self@, places@, texts(names@));
        }
        names
    }

    /// Takes the document apart into its chunks, in file order.
    pub fn into_chunks(self) -> (chunks: Vec<Chunk>)
        ensures
            views(chunks@) == self@,
    {
        self.chunks
    }
}

} // verus!
