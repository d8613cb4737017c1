//! The table of character classes.  A class is a set of symbols stored as
//! one or more segments, each a contiguous range of characters; edges refer
//! to a class only through its integer identifier.

use vstd::prelude::*;

use crate::ConstructionError;

verus! {

/// One segment of a character class: the contiguous range of characters
/// `from_char ..= to_char`, belonging to the class `index_id`.
#[derive(Clone, Copy, PartialEq, Eq, Structural, Debug)]
pub struct CharSet {
    pub index_id: usize,
    pub segment_id: usize,
    pub from_char: char,
    pub to_char: char,
}

/// The table of all class segments.  A class is the union of the ranges of
/// every segment that carries its identifier.
#[derive(Debug)]
pub struct CharSetTable {
    pub table: Vec<CharSet>,
}

impl View for CharSetTable {
    type V = Seq<CharSet>;

    open spec fn view(&self) -> Seq<CharSet> {
        self.table.view()
    }
}

/// A segment is well formed when its range is not reversed.
pub open spec fn seg_wf(s: CharSet) -> bool {
    s.from_char as u32 <= s.to_char as u32
}

/// Is the code point one that a character can carry?
pub open spec fn valid_code(u: int) -> bool {
    (0 <= u < 0xD800) || (0xE000 <= u <= 0x10FFFF)
}

/// Relies on `char::from_u32`: it returns `Some` exactly for code points
/// outside the surrogate range and at most the maximum code point, and the
/// returned character carries the given code.
pub assume_specification[ char::from_u32 ](i: u32) -> (r: Option<char>)
    ensures
        r is Some <==> valid_code(i as int),
        r is Some ==> (r->0) as u32 == i,
;

/// The characters of the range `lo ..= hi`.
pub open spec fn char_range(lo: char, hi: char) -> Set<char> {
    Set::new(|c: char| lo as u32 <= c as u32 <= hi as u32)
}

/// The largest class identifier in the table, or -1 in an empty table.
pub open spec fn max_index_id(t: Seq<CharSet>) -> int
    decreases t.len(),
{
    if t.len() == 0 {
        -1
    } else {
        let m = max_index_id(t.drop_last());
        if t.last().index_id > m {
            t.last().index_id as int
        } else {
            m
        }
    }
}

/// The identifier a freshly created class receives.
pub open spec fn next_class_id(t: Seq<CharSet>) -> int {
    max_index_id(t) + 1
}

/// Does any segment of the table belong to the class `id`?
pub open spec fn has_class(t: Seq<CharSet>, id: int) -> bool {
    exists|i: int| 0 <= i < t.len() && (#[trigger] t[i]).index_id == id
}

/// The set of characters the class `id` covers.
pub open spec fn class_chars(t: Seq<CharSet>, id: int) -> Set<char> {
    Set::new(
        |c: char|
            exists|i: int|
                0 <= i < t.len() && (#[trigger] t[i]).index_id == id && t[i].from_char as u32
                    <= c as u32 <= t[i].to_char as u32,
    )
}

/// The largest segment identifier within the class `id`, or -1 when the
/// class has no segment.
pub open spec fn max_segment_id(t: Seq<CharSet>, id: int) -> int
    decreases t.len(),
{
    if t.len() == 0 {
        -1
    } else {
        let m = max_segment_id(t.drop_last(), id);
        if t.last().index_id == id && t.last().segment_id > m {
            t.last().segment_id as int
        } else {
            m
        }
    }
}

/// The subsequence of segments that belong to the class `id`, in table
/// order.
pub open spec fn segments_of(t: Seq<CharSet>, id: int) -> Seq<CharSet>
    decreases t.len(),
{
    if t.len() == 0 {
        Seq::empty()
    } else {
        segments_of(t.drop_last(), id) + (if t.last().index_id == id {
            seq![t.last()]
        } else {
            Seq::<CharSet>::empty()
        })
    }
}

/// The given segments re-tagged for the class `id`, keeping their own
/// segment identifiers.
pub open spec fn retag(segs: Seq<CharSet>, id: usize) -> Seq<CharSet> {
    Seq::new(segs.len(), |j: int| CharSet { index_id: id, ..segs[j] })
}

/// The given segments re-tagged for the class `id`, with their segment
/// identifiers renumbered by position.
pub open spec fn renumber(segs: Seq<CharSet>, id: usize) -> Seq<CharSet> {
    Seq::new(
        segs.len(),
        |j: int|
            CharSet {
                index_id: id,
                segment_id: j as usize,
                from_char: segs[j].from_char,
                to_char: segs[j].to_char,
            },
    )
}

/// The set of characters a list of segments covers, whatever class they
/// carry.
pub open spec fn segs_chars(segs: Seq<CharSet>) -> Set<char> {
    Set::new(
        |c: char|
            exists|j: int|
                0 <= j < segs.len() && (#[trigger] segs[j]).from_char as u32 <= c as u32
                    <= segs[j].to_char as u32,
    )
}

/// No class identifier in the table exceeds the maximum.
proof fn lemma_max_index_id_bound(t: Seq<CharSet>, i: int)
    requires
        0 <= i < t.len(),
    ensures
        t[i].index_id <= max_index_id(t),
    decreases t.len(),
{
    if i < t.len() - 1 {
        lemma_max_index_id_bound(t.drop_last(), i);
    }
}

/// Every table segment of the class appears among its listed segments.
proof fn lemma_segments_of_complete(t: Seq<CharSet>, id: int, i: int)
    requires
        0 <= i < t.len(),
        t[i].index_id == id,
    ensures
        exists|j: int|
            0 <= j < segments_of(t, id).len() && (#[trigger] segments_of(t, id)[j]) == t[i],
    decreases t.len(),
{
    let segs = segments_of(t, id);
    if i == t.len() - 1 {
        assert(segs[segs.len() - 1] == t[i]);
    } else {
        lemma_segments_of_complete(t.drop_last(), id, i);
        let j = choose|j: int|
            0 <= j < segments_of(t.drop_last(), id).len() && (#[trigger] segments_of(
                t.drop_last(),
                id,
            )[j]) == t.drop_last()[i];
        assert(segs[j] == t[i]);
    }
}

/// Every listed segment of the class stands somewhere in the table and
/// belongs to the class.
proof fn lemma_segments_of_sound(t: Seq<CharSet>, id: int, j: int)
    requires
        0 <= j < segments_of(t, id).len(),
    ensures
        exists|i: int|
            0 <= i < t.len() && (#[trigger] t[i]) == segments_of(t, id)[j] && t[i].index_id == id,
    decreases t.len(),
{
    let segs = segments_of(t, id);
    let pre = segments_of(t.drop_last(), id);
    if j < pre.len() {
        lemma_segments_of_sound(t.drop_last(), id, j);
        let i = choose|i: int|
            0 <= i < t.drop_last().len() && (#[trigger] t.drop_last()[i]) == pre[j]
                && t.drop_last()[i].index_id == id;
        assert(t[i] == pre[j]);
        assert(segs[j] == pre[j]);
    } else {
        assert(t.last().index_id == id);
        assert(segs[j] == t.last());
        assert(t[t.len() - 1] == t.last());
    }
}

/// The characters of a class are the characters of its listed segments.
proof fn lemma_class_chars_as_segments(t: Seq<CharSet>, id: int)
    ensures
        class_chars(t, id) == segs_chars(segments_of(t, id)),
{
    let segs = segments_of(t, id);
    assert forall|c: char| class_chars(t, id).contains(c) implies segs_chars(segs).contains(c) by {
        let i = choose|i: int|
            0 <= i < t.len() && (#[trigger] t[i]).index_id == id && t[i].from_char as u32
                <= c as u32 <= t[i].to_char as u32;
        lemma_segments_of_complete(t, id, i);
        let j = choose|j: int| 0 <= j < segs.len() && (#[trigger] segs[j]) == t[i];
    }
    assert forall|c: char| segs_chars(segs).contains(c) implies class_chars(t, id).contains(c) by {
        let j = choose|j: int|
            0 <= j < segs.len() && (#[trigger] segs[j]).from_char as u32 <= c as u32
                <= segs[j].to_char as u32;
        lemma_segments_of_sound(t, id, j);
    }
    assert(class_chars(t, id) =~= segs_chars(segs));
}

/// Appending segments of a fresh class: the older classes keep their
/// characters, and the fresh class covers exactly the appended ranges.
proof fn lemma_class_chars_append_fresh(t: Seq<CharSet>, add: Seq<CharSet>, id: int)
    requires
        max_index_id(t) < id,
        forall|j: int| 0 <= j < add.len() ==> (#[trigger] add[j]).index_id == id,
    ensures
        class_chars(t + add, id) == segs_chars(add),
{
    assert forall|c: char| class_chars(t + add, id).contains(c) implies segs_chars(add).contains(
        c,
    ) by {
        let i = choose|i: int|
            0 <= i < (t + add).len() && (#[trigger] (t + add)[i]).index_id == id && (t
                + add)[i].from_char as u32 <= c as u32 <= (t + add)[i].to_char as u32;
        if i < t.len() {
            lemma_max_index_id_bound(t, i);
        } else {
            let j = i - t.len();
            assert(add[j].from_char as u32 <= c as u32 <= add[j].to_char as u32);
        }
    }
    assert forall|c: char| segs_chars(add).contains(c) implies class_chars(t + add, id).contains(
        c,
    ) by {
        let j = choose|j: int|
            0 <= j < add.len() && (#[trigger] add[j]).from_char as u32 <= c as u32
                <= add[j].to_char as u32;
        assert((t + add)[t.len() + j] == add[j]);
    }
    assert(class_chars(t + add, id) =~= segs_chars(add));
}

/// Two characters with the same code point are the same character.
proof fn lemma_char_code_injective(a: char, b: char)
    requires
        a as u32 == b as u32,
    ensures
        a == b,
{
    vstd::utf8::char_u32_cast(a, a as u32);
    vstd::utf8::char_u32_cast(b, b as u32);
}

impl CharSetTable {
    /// Every segment of the table keeps a non-reversed range.
    pub open spec fn inv(self) -> bool {
        forall|i: int| 0 <= i < self@.len() ==> seg_wf(#[trigger] self@[i])
    }

    /// An empty table.
    pub fn new() -> (t: CharSetTable)
        ensures
            t@ == Seq::<CharSet>::empty(),
            t.inv(),
    {
        CharSetTable { table: Vec::new() }
    }

    /// Appends one segment to the table.
    pub fn push(&mut self, s: CharSet)
        requires
            old(self).inv(),
            seg_wf(s),
        ensures
            final(self).inv(),
            final(self)@ == old(self)@.push(s),
    {
        self.table.push(s);
        proof {
            assert forall|i: int| 0 <= i < self@.len() implies seg_wf(#[trigger] self@[i]) by {
                if i < old(self)@.len() {
                    assert(self@[i] == old(self)@[i]);
                } else {
                    assert(self@[i] == s);
                }
            }
        }
    }

    /// The largest class identifier in the table, if the table holds any
    /// segment at all.
    fn get_max(&self) -> (r: Option<usize>)
        ensures
            r is Some <==> self@.len() > 0,
            r is Some ==> (r->0) as int == max_index_id(self@),
    {
        let n = self.table.len();
        if n == 0 {
            return None;
        }
        let mut max: usize = self.table[0].index_id;
        let mut i: usize = 1;
        proof {
            assert(max_index_id(Seq::<CharSet>::empty()) == -1);
            assert(self@.take(1).drop_last() =~= Seq::<CharSet>::empty());
            assert(self@.take(1).last() == self@[0]);
            assert(max_index_id(self@.take(1)) == self@[0].index_id);
        }
        while i < n
            invariant
                1 <= i <= n,
                n == self@.len(),
                max as int == max_index_id(self@.take(i as int)),
            decreases n - i,
        {
            proof {
                assert(self@.take(i + 1).drop_last() =~= self@.take(i as int));
                assert(self@.take(i + 1).last() == self@[i as int]);
            }
            if self.table[i].index_id > max {
                max = self.table[i].index_id;
            }
            i += 1;
        }
        proof {
            assert(self@.take(n as int) =~= self@);
        }
        Some(max)
    }

    /// The largest segment identifier of the class, if the class exists.
    fn get_max_segment_id(&self, index_id: usize) -> (r: Option<usize>)
        ensures
            r is Some <==> has_class(self@, index_id as int),
            r is Some ==> (r->0) as int == max_segment_id(self@, index_id as int),
    {
        let n = self.table.len();
        let mut found = false;
        let mut max: usize = 0;
        let mut i: usize = 0;
        proof {
            assert(self@.take(0) =~= Seq::<CharSet>::empty());
        }
        while i < n
            invariant
                i <= n,
                n == self@.len(),
                found <==> has_class(self@.take(i as int), index_id as int),
                found ==> max as int == max_segment_id(self@.take(i as int), index_id as int),
                !found ==> max_segment_id(self@.take(i as int), index_id as int) == -1,
            decreases n - i,
        {
            proof {
                assert(self@.take(i + 1).drop_last() =~= self@.take(i as int));
                assert(self@.take(i + 1).last() == self@[i as int]);
            }
            let s = self.table[i];
            if s.index_id == index_id {
                if !found || s.segment_id > max {
                    max = s.segment_id;
                }
                found = true;
                proof {
                    assert(self@.take(i + 1)[i as int] == self@[i as int]);
                    assert(has_class(self@.take(i + 1), index_id as int));
                }
            } else {
                proof {
                    if has_class(self@.take(i + 1), index_id as int) {
                        let j = choose|j: int|
                            0 <= j < i + 1 && (#[trigger] self@.take(i + 1)[j]).index_id
                                == index_id as int;
                        assert(self@.take(i as int)[j] == self@[j]);
                    }
                }
            }
            i += 1;
        }
        proof {
            assert(self@.take(n as int) =~= self@);
        }
        if found {
            Some(max)
        } else {
            None
        }
    }

    /// Creates a class covering the contiguous range between the two
    /// characters, whichever order they are given in, and returns its
    /// fresh identifier.
    pub fn range(&mut self, from_char: char, to_char: char) -> (id: usize)
        requires
            old(self).inv(),
            max_index_id(old(self)@) < usize::MAX,
        ensures
            final(self).inv(),
            id as int == next_class_id(old(self)@),
            final(self)@ == old(self)@.push(
                CharSet {
                    index_id: id,
                    segment_id: 0,
                    from_char: if from_char as u32 <= to_char as u32 {
                        from_char
                    } else {
                        to_char
                    },
                    to_char: if from_char as u32 <= to_char as u32 {
                        to_char
                    } else {
                        from_char
                    },
                },
            ),
            class_chars(final(self)@, id as int) == char_range(
                if from_char as u32 <= to_char as u32 {
                    from_char
                } else {
                    to_char
                },
                if from_char as u32 <= to_char as u32 {
                    to_char
                } else {
                    from_char
                },
            ),
    {
        let (lo, hi) = if (from_char as u32) <= (to_char as u32) {
            (from_char, to_char)
        } else {
            (to_char, from_char)
        };
        let id = match self.get_max() {
            Some(value) => value + 1,
            None => 0,
        };
        let seg = CharSet { index_id: id, segment_id: 0, from_char: lo, to_char: hi };
        self.table.push(seg);
        proof {
            let t0 = old(self)@;
            assert(self@ == t0.push(seg));
            assert(t0.push(seg) =~= t0 + seq![seg]);
            lemma_class_chars_append_fresh(t0, seq![seg], id as int);
            assert forall|c: char| segs_chars(seq![seg]).contains(c) <==> char_range(
                lo,
                hi,
            ).contains(c) by {
                assert(seq![seg][0] == seg);
                if char_range(lo, hi).contains(c) {
                    assert(seq![seg][0].from_char as u32 <= c as u32 <= seq![seg][0].to_char
                        as u32);
                }
            }
            assert(segs_chars(seq![seg]) =~= char_range(lo, hi));
        }
        id
    }

    /// Creates a class covering exactly the two given characters —
    /// adjacent characters collapse into one two-character range, equal
    /// characters into a single-character range — and returns its fresh
    /// identifier.
    pub fn union_chars(&mut self, c1: char, c2: char) -> (id: usize)
        requires
            old(self).inv(),
            max_index_id(old(self)@) < usize::MAX,
        ensures
            final(self).inv(),
            id as int == next_class_id(old(self)@),
            final(self)@ == old(self)@ + pair_segments(c1, c2, id),
            class_chars(final(self)@, id as int) == Set::<char>::empty().insert(c1).insert(c2),
    {
        let id = match self.get_max() {
            Some(value) => value + 1,
            None => 0,
        };
        let u1 = c1 as u32;
        let u2 = c2 as u32;
        if u1 == u2 {
            proof {
                lemma_char_code_injective(c1, c2);
            }
            self.table.push(CharSet { index_id: id, segment_id: 0, from_char: c1, to_char: c1 });
        } else if u1 < u2 && u1 + 1 == u2 {
            self.table.push(CharSet { index_id: id, segment_id: 0, from_char: c1, to_char: c2 });
        } else if u2 < u1 && u2 + 1 == u1 {
            self.table.push(CharSet { index_id: id, segment_id: 0, from_char: c2, to_char: c1 });
        } else {
            self.table.push(CharSet { index_id: id, segment_id: 0, from_char: c1, to_char: c1 });
            self.table.push(CharSet { index_id: id, segment_id: 1, from_char: c2, to_char: c2 });
        }
        proof {
            let t0 = old(self)@;
            let add = pair_segments(c1, c2, id);
            assert(self@ =~= t0 + add);
            lemma_class_chars_append_fresh(t0, add, id as int);
            assert forall|c: char| segs_chars(add).contains(c) <==> (c == c1 || c == c2) by {
                if segs_chars(add).contains(c) {
                    let j = choose|j: int|
                        0 <= j < add.len() && (#[trigger] add[j]).from_char as u32 <= c as u32
                            <= add[j].to_char as u32;
                    if c as u32 == c1 as u32 {
                        lemma_char_code_injective(c, c1);
                    } else if c as u32 == c2 as u32 {
                        lemma_char_code_injective(c, c2);
                    }
                } else {
                    if c == c1 {
                        assert(add[0].from_char as u32 <= c as u32 <= add[0].to_char as u32);
                    }
                    if c == c2 {
                        if c1 as u32 == c2 as u32 {
                            lemma_char_code_injective(c1, c2);
                            assert(add[0].from_char as u32 <= c as u32 <= add[0].to_char as u32);
                        } else if (c1 as u32) < (c2 as u32) && c1 as u32 + 1 == c2 as u32 {
                            assert(add[0].from_char as u32 <= c as u32 <= add[0].to_char as u32);
                        } else if (c2 as u32) < (c1 as u32) && c2 as u32 + 1 == c1 as u32 {
                            assert(add[0].from_char as u32 <= c as u32 <= add[0].to_char as u32);
                        } else {
                            assert(add[1].from_char as u32 <= c as u32 <= add[1].to_char as u32);
                        }
                    }
                }
            }
            assert(class_chars(self@, id as int) =~= Set::<char>::empty().insert(c1).insert(c2));
        }
        id
    }

    /// Copies every segment of the given class under a fresh class
    /// identifier, keeping the segment identifiers, and returns the fresh
    /// identifier.  Copying a class that does not exist creates an empty
    /// class.
    pub fn copy_by_index_id(&mut self, index_id: usize) -> (id: usize)
        requires
            old(self).inv(),
            max_index_id(old(self)@) < usize::MAX,
        ensures
            final(self).inv(),
            id as int == next_class_id(old(self)@),
            final(self)@ == old(self)@ + retag(segments_of(old(self)@, index_id as int), id),
            class_chars(final(self)@, id as int) == class_chars(old(self)@, index_id as int),
    {
        let ghost t0 = self@;
        let id = match self.get_max() {
            Some(value) => value + 1,
            None => 0,
        };
        let n = self.table.len();
        let mut copies: Vec<CharSet> = Vec::new();
        let mut i: usize = 0;
        proof {
            assert(segments_of(t0.take(0), index_id as int) =~= Seq::<CharSet>::empty());
            assert(copies@ =~= retag(segments_of(t0.take(0), index_id as int), id));
        }
        while i < n
            invariant
                i <= n,
                n == t0.len(),
                self@ == t0,
                self.inv(),
                copies@ == retag(segments_of(t0.take(i as int), index_id as int), id),
            decreases n - i,
        {
            proof {
                assert(t0.take(i + 1).drop_last() =~= t0.take(i as int));
                assert(t0.take(i + 1).last() == t0[i as int]);
            }
            let s = self.table[i];
            if s.index_id == index_id {
                copies.push(CharSet { index_id: id, segment_id: s.segment_id, from_char: s.from_char, to_char: s.to_char });
                proof {
                    let pre = segments_of(t0.take(i as int), index_id as int);
                    let now = segments_of(t0.take(i + 1), index_id as int);
                    assert(now == pre + seq![t0[i as int]]);
                    assert(copies@ =~= retag(now, id));
                }
            } else {
                proof {
                    assert(segments_of(t0.take(i + 1), index_id as int) =~= segments_of(
                        t0.take(i as int),
                        index_id as int,
                    ));
                }
            }
            i += 1;
        }
        proof {
            assert(t0.take(n as int) =~= t0);
        }
        let ghost add = retag(segments_of(t0, index_id as int), id);
        proof {
            assert forall|k: int| 0 <= k < add.len() implies seg_wf(#[trigger] add[k]) by {
                lemma_segments_of_sound(t0, index_id as int, k);
                let i0 = choose|i0: int|
                    0 <= i0 < t0.len() && (#[trigger] t0[i0]) == segments_of(
                        t0,
                        index_id as int,
                    )[k] && t0[i0].index_id == index_id as int;
                assert(seg_wf(t0[i0]));
            }
        }
        let nc = copies.len();
        let mut j: usize = 0;
        while j < nc
            invariant
                j <= nc,
                nc == copies@.len(),
                copies@ == add,
                self@ == t0 + add.take(j as int),
                self.inv(),
                forall|k: int| 0 <= k < add.len() ==> seg_wf(#[trigger] add[k]),
            decreases nc - j,
        {
            let s = copies[j];
            self.table.push(s);
            proof {
                assert(self@ =~= t0 + add.take(j + 1));
            }
            j += 1;
        }
        proof {
            assert(add.take(nc as int) =~= add);
            assert(self@ == t0 + add);
            assert forall|k: int| 0 <= k < add.len() implies (#[trigger] add[k]).index_id
                == id by {}
            lemma_class_chars_append_fresh(t0, add, id as int);
            lemma_class_chars_as_segments(t0, index_id as int);
            assert(segs_chars(add) =~= segs_chars(segments_of(t0, index_id as int))) by {
                let segs = segments_of(t0, index_id as int);
                assert forall|c: char| segs_chars(add).contains(c) <==> segs_chars(segs).contains(
                    c,
                ) by {
                    if segs_chars(add).contains(c) {
                        let k = choose|k: int|
                            0 <= k < add.len() && (#[trigger] add[k]).from_char as u32 <= c as u32
                                <= add[k].to_char as u32;
                        assert(segs[k].from_char as u32 <= c as u32 <= segs[k].to_char as u32);
                    }
                    if segs_chars(segs).contains(c) {
                        let k = choose|k: int|
                            0 <= k < segs.len() && (#[trigger] segs[k]).from_char as u32 <= c as u32
                                <= segs[k].to_char as u32;
                        assert(add[k].from_char as u32 <= c as u32 <= add[k].to_char as u32);
                    }
                }
            }
        }
        id
    }
}

/// Pushing one segment extends its own class by the segment's range and
/// leaves every other class as it was.
proof fn lemma_class_chars_push(t: Seq<CharSet>, s: CharSet, id: int)
    ensures
        s.index_id == id ==> class_chars(t.push(s), id) == class_chars(t, id).union(
            char_range(s.from_char, s.to_char),
        ),
        s.index_id != id ==> class_chars(t.push(s), id) == class_chars(t, id),
{
    assert forall|c: char| class_chars(t.push(s), id).contains(c) implies (class_chars(
        t,
        id,
    ).contains(c) || (s.index_id == id && char_range(s.from_char, s.to_char).contains(c))) by {
        let i = choose|i: int|
            0 <= i < t.push(s).len() && (#[trigger] t.push(s)[i]).index_id == id && t.push(
                s,
            )[i].from_char as u32 <= c as u32 <= t.push(s)[i].to_char as u32;
        if i < t.len() {
            assert(t[i] == t.push(s)[i]);
        }
    }
    assert forall|c: char| class_chars(t, id).contains(c) implies class_chars(
        t.push(s),
        id,
    ).contains(c) by {
        let i = choose|i: int|
            0 <= i < t.len() && (#[trigger] t[i]).index_id == id && t[i].from_char as u32
                <= c as u32 <= t[i].to_char as u32;
        assert(t.push(s)[i] == t[i]);
    }
    if s.index_id == id {
        assert forall|c: char| char_range(s.from_char, s.to_char).contains(c) implies class_chars(
            t.push(s),
            id,
        ).contains(c) by {
            assert(t.push(s)[t.len() as int] == s);
        }
        assert(class_chars(t.push(s), id) =~= class_chars(t, id).union(
            char_range(s.from_char, s.to_char),
        ));
    } else {
        assert(class_chars(t.push(s), id) =~= class_chars(t, id));
    }
}

/// Concatenating segment lists unites their character sets.
proof fn lemma_segs_chars_concat(a: Seq<CharSet>, b: Seq<CharSet>)
    ensures
        segs_chars(a + b) == segs_chars(a).union(segs_chars(b)),
{
    assert forall|c: char| segs_chars(a + b).contains(c) implies (segs_chars(a).contains(c)
        || segs_chars(b).contains(c)) by {
        let j = choose|j: int|
            0 <= j < (a + b).len() && (#[trigger] (a + b)[j]).from_char as u32 <= c as u32
                <= (a + b)[j].to_char as u32;
        if j < a.len() {
            assert(a[j] == (a + b)[j]);
        } else {
            assert(b[j - a.len()] == (a + b)[j]);
        }
    }
    assert forall|c: char| segs_chars(a).contains(c) implies segs_chars(a + b).contains(c) by {
        let j = choose|j: int|
            0 <= j < a.len() && (#[trigger] a[j]).from_char as u32 <= c as u32 <= a[j].to_char
                as u32;
        assert((a + b)[j] == a[j]);
    }
    assert forall|c: char| segs_chars(b).contains(c) implies segs_chars(a + b).contains(c) by {
        let j = choose|j: int|
            0 <= j < b.len() && (#[trigger] b[j]).from_char as u32 <= c as u32 <= b[j].to_char
                as u32;
        assert((a + b)[a.len() + j] == b[j]);
    }
    assert(segs_chars(a + b) =~= segs_chars(a).union(segs_chars(b)));
}

/// Renumbering keeps a segment list's characters.
proof fn lemma_segs_chars_renumber(segs: Seq<CharSet>, id: usize)
    ensures
        segs_chars(renumber(segs, id)) == segs_chars(segs),
{
    let rn = renumber(segs, id);
    assert forall|c: char| segs_chars(rn).contains(c) implies segs_chars(segs).contains(c) by {
        let j = choose|j: int|
            0 <= j < rn.len() && (#[trigger] rn[j]).from_char as u32 <= c as u32 <= rn[j].to_char
                as u32;
        assert(segs[j].from_char as u32 <= c as u32 <= segs[j].to_char as u32);
    }
    assert forall|c: char| segs_chars(segs).contains(c) implies segs_chars(rn).contains(c) by {
        let j = choose|j: int|
            0 <= j < segs.len() && (#[trigger] segs[j]).from_char as u32 <= c as u32
                <= segs[j].to_char as u32;
        assert(rn[j].from_char as u32 <= c as u32 <= rn[j].to_char as u32);
    }
    assert(segs_chars(rn) =~= segs_chars(segs));
}

impl CharSetTable {
    /// Unites a class and one more character into a fresh class: the old
    /// class's segments are copied under a fresh identifier and the
    /// character is appended as a one-character segment.  Fails with
    /// `UnknownSetId` exactly when the class does not exist, leaving the
    /// table unchanged.
    pub fn union_with_char(&mut self, set_id: usize, c: char) -> (r: Result<
        usize,
        ConstructionError,
    >)
        requires
            old(self).inv(),
            max_index_id(old(self)@) < usize::MAX,
            max_segment_id(old(self)@, set_id as int) < usize::MAX,
        ensures
            final(self).inv(),
            r is Ok <==> has_class(old(self)@, set_id as int),
            r is Err ==> r->Err_0 == ConstructionError::UnknownSetId && final(self)@ == old(self)@,
            r is Ok ==> (r->Ok_0) as int == next_class_id(old(self)@) && final(self)@ == old(self)@
                + retag(segments_of(old(self)@, set_id as int), r->Ok_0).push(
                CharSet {
                    index_id: r->Ok_0,
                    segment_id: (max_segment_id(old(self)@, set_id as int) + 1) as usize,
                    from_char: c,
                    to_char: c,
                },
            ) && class_chars(final(self)@, (r->Ok_0) as int) == class_chars(
                old(self)@,
                set_id as int,
            ).insert(c),
    {
        let ghost t0 = self@;
        let maxseg = match self.get_max_segment_id(set_id) {
            Some(value) => value,
            None => {
                return Err(ConstructionError::UnknownSetId);
            },
        };
        let id = self.copy_by_index_id(set_id);
        let seg = CharSet { index_id: id, segment_id: maxseg + 1, from_char: c, to_char: c };
        let ghost mid = self@;
        self.table.push(seg);
        proof {
            assert(self@ == mid.push(seg));
            lemma_class_chars_push(mid, seg, id as int);
            assert forall|x: char| char_range(c, c).contains(x) implies x == c by {
                lemma_char_code_injective(x, c);
            }
            assert(char_range(c, c) =~= Set::<char>::empty().insert(c));
            assert(class_chars(self@, id as int) =~= class_chars(t0, set_id as int).insert(c));
            assert(self@ =~= t0 + retag(segments_of(t0, set_id as int), id).push(seg));
        }
        Ok(id)
    }

    /// Unites two classes into a fresh class holding both classes'
    /// segments, renumbered.  Fails with `UnknownSetId` exactly when
    /// either class does not exist, leaving the table unchanged.
    pub fn union_sets(&mut self, set_id1: usize, set_id2: usize) -> (r: Result<
        usize,
        ConstructionError,
    >)
        requires
            old(self).inv(),
            max_index_id(old(self)@) < usize::MAX,
        ensures
            final(self).inv(),
            r is Ok <==> has_class(old(self)@, set_id1 as int) && has_class(
                old(self)@,
                set_id2 as int,
            ),
            r is Err ==> r->Err_0 == ConstructionError::UnknownSetId && final(self)@ == old(self)@,
            r is Ok ==> (r->Ok_0) as int == next_class_id(old(self)@) && final(self)@ == old(self)@
                + renumber(
                segments_of(old(self)@, set_id1 as int) + segments_of(old(self)@, set_id2 as int),
                r->Ok_0,
            ) && class_chars(final(self)@, (r->Ok_0) as int) == class_chars(
                old(self)@,
                set_id1 as int,
            ).union(class_chars(old(self)@, set_id2 as int)),
    {
        let ghost t0 = self@;
        if let None = self.get_max_segment_id(set_id1) {
            return Err(ConstructionError::UnknownSetId);
        }
        if let None = self.get_max_segment_id(set_id2) {
            return Err(ConstructionError::UnknownSetId);
        }
        let id = match self.get_max() {
            Some(value) => value + 1,
            None => 0,
        };
        let mut both = self.collect_segments(set_id1);
        let mut second = self.collect_segments(set_id2);
        let ghost firstv = both@;
        both.append(&mut second);
        proof {
            assert(both@ == segments_of(t0, set_id1 as int) + segments_of(t0, set_id2 as int));
        }
        let ghost add = renumber(both@, id);
        self.push_renumbered(&both, id);
        proof {
            assert forall|k: int| 0 <= k < add.len() implies (#[trigger] add[k]).index_id
                == id by {}
            lemma_class_chars_append_fresh(t0, add, id as int);
            lemma_segs_chars_renumber(both@, id);
            lemma_segs_chars_concat(
                segments_of(t0, set_id1 as int),
                segments_of(t0, set_id2 as int),
            );
            lemma_class_chars_as_segments(t0, set_id1 as int);
            lemma_class_chars_as_segments(t0, set_id2 as int);
        }
        Ok(id)
    }

    /// The segments of the given class, in table order.
    fn collect_segments(&self, index_id: usize) -> (r: Vec<CharSet>)
        requires
            self.inv(),
        ensures
            r@ == segments_of(self@, index_id as int),
            forall|k: int| 0 <= k < r@.len() ==> seg_wf(#[trigger] r@[k]),
    {
        let ghost t0 = self@;
        let n = self.table.len();
        let mut r: Vec<CharSet> = Vec::new();
        let mut i: usize = 0;
        proof {
            assert(r@ =~= segments_of(t0.take(0), index_id as int));
        }
        while i < n
            invariant
                i <= n,
                n == t0.len(),
                self@ == t0,
                self.inv(),
                r@ == segments_of(t0.take(i as int), index_id as int),
                forall|k: int| 0 <= k < r@.len() ==> seg_wf(#[trigger] r@[k]),
            decreases n - i,
        {
            proof {
                assert(t0.take(i + 1).drop_last() =~= t0.take(i as int));
                assert(t0.take(i + 1).last() == t0[i as int]);
            }
            let s = self.table[i];
            if s.index_id == index_id {
                r.push(s);
                proof {
                    assert(r@ =~= segments_of(t0.take(i + 1), index_id as int));
                }
            } else {
                proof {
                    assert(segments_of(t0.take(i + 1), index_id as int) =~= segments_of(
                        t0.take(i as int),
                        index_id as int,
                    ));
                }
            }
            i += 1;
        }
        proof {
            assert(t0.take(n as int) =~= t0);
        }
        r
    }

    /// Appends the given segments under the given class identifier, with
    /// segment identifiers renumbered by position.
    fn push_renumbered(&mut self, segs: &Vec<CharSet>, id: usize)
        requires
            old(self).inv(),
            forall|k: int| 0 <= k < segs@.len() ==> seg_wf(#[trigger] segs@[k]),
        ensures
            final(self).inv(),
            final(self)@ == old(self)@ + renumber(segs@, id),
    {
        let ghost t0 = self@;
        let ghost add = renumber(segs@, id);
        let nc = segs.len();
        let mut j: usize = 0;
        proof {
            assert(self@ =~= t0 + add.take(0));
        }
        while j < nc
            invariant
                j <= nc,
                nc == segs@.len(),
                add == renumber(segs@, id),
                self@ == t0 + add.take(j as int),
                self.inv(),
                forall|k: int| 0 <= k < segs@.len() ==> seg_wf(#[trigger] segs@[k]),
            decreases nc - j,
        {
            let s = segs[j];
            self.table.push(
                CharSet { index_id: id, segment_id: j, from_char: s.from_char, to_char: s.to_char },
            );
            proof {
                assert(add[j as int] == (CharSet {
                    index_id: id,
                    segment_id: j,
                    from_char: s.from_char,
                    to_char: s.to_char,
                }));
                assert(self@ =~= t0 + add.take(j + 1));
            }
            j += 1;
        }
        proof {
            assert(add.take(nc as int) =~= add);
        }
    }
}

/// The segments left of one segment after taking the character `c` out of
/// its range: unchanged when `c` lies outside, gone when the range was
/// only `c`, shrunk at a hit edge, split in two when `c` lies strictly
/// inside.  `None` when a needed neighbouring code point is not a
/// character.
pub open spec fn seg_minus(s: CharSet, c: char) -> Option<Seq<CharSet>> {
    if !(s.from_char as u32 <= c as u32 <= s.to_char as u32) {
        Some(seq![s])
    } else if s.from_char == s.to_char {
        Some(Seq::<CharSet>::empty())
    } else if c == s.from_char {
        if valid_code(c as u32 + 1) {
            Some(seq![(CharSet { from_char: (c as u32 + 1) as char, ..s })])
        } else {
            None
        }
    } else if c == s.to_char {
        if valid_code(c as u32 - 1) {
            Some(seq![(CharSet { to_char: (c as u32 - 1) as char, ..s })])
        } else {
            None
        }
    } else {
        if valid_code(c as u32 - 1) && valid_code(c as u32 + 1) {
            Some(
                seq![
                    (CharSet { to_char: (c as u32 - 1) as char, ..s }),
                    (CharSet { from_char: (c as u32 + 1) as char, ..s }),
                ],
            )
        } else {
            None
        }
    }
}

/// The segments left of a whole segment list after taking `c` out of every
/// range; `None` as soon as one segment cannot be stepped.
pub open spec fn diff_segments(segs: Seq<CharSet>, c: char) -> Option<Seq<CharSet>>
    decreases segs.len(),
{
    if segs.len() == 0 {
        Some(Seq::<CharSet>::empty())
    } else {
        match diff_segments(segs.drop_last(), c) {
            Some(acc) => match seg_minus(segs.last(), c) {
                Some(ss) => Some(acc + ss),
                None => None,
            },
            None => None,
        }
    }
}

/// Taking a character out of one well-formed segment removes exactly that
/// character from its range, and leaves well-formed segments.
proof fn lemma_seg_minus_chars(s: CharSet, c: char)
    requires
        seg_wf(s),
        seg_minus(s, c) is Some,
    ensures
        segs_chars(seg_minus(s, c)->0) == char_range(s.from_char, s.to_char).remove(c),
        forall|k: int| 0 <= k < (seg_minus(s, c)->0).len() ==> seg_wf(#[trigger] (seg_minus(s, c)->0)[k]),
{
    let ss = seg_minus(s, c)->0;
    assert forall|x: char| segs_chars(ss).contains(x) <==> (char_range(
        s.from_char,
        s.to_char,
    ).contains(x) && x != c) by {
        if !(s.from_char as u32 <= c as u32 <= s.to_char as u32) {
            assert(ss[0] == s);
            if char_range(s.from_char, s.to_char).contains(x) {
                if x == c {
                }
                assert(segs_chars(ss).contains(x)) by {
                    assert(ss[0].from_char as u32 <= x as u32 <= ss[0].to_char as u32);
                }
            }
            if segs_chars(ss).contains(x) {
                let j = choose|j: int|
                    0 <= j < ss.len() && (#[trigger] ss[j]).from_char as u32 <= x as u32
                        <= ss[j].to_char as u32;
                if x == c {
                }
            }
        } else if s.from_char == s.to_char {
            if segs_chars(ss).contains(x) {
                let j = choose|j: int|
                    0 <= j < ss.len() && (#[trigger] ss[j]).from_char as u32 <= x as u32
                        <= ss[j].to_char as u32;
            }
            if char_range(s.from_char, s.to_char).contains(x) && x != c {
                lemma_char_code_injective(x, c);
            }
        } else if c == s.from_char {
            let nf = (c as u32 + 1) as char;
            assert(nf as u32 == c as u32 + 1);
            assert(ss[0] == (CharSet { from_char: nf, ..s }));
            if segs_chars(ss).contains(x) {
                let j = choose|j: int|
                    0 <= j < ss.len() && (#[trigger] ss[j]).from_char as u32 <= x as u32
                        <= ss[j].to_char as u32;
                assert(x as u32 != c as u32);
            }
            if char_range(s.from_char, s.to_char).contains(x) && x != c {
                assert(x as u32 != c as u32) by {
                    if x as u32 == c as u32 {
                        lemma_char_code_injective(x, c);
                    }
                }
                assert(ss[0].from_char as u32 <= x as u32 <= ss[0].to_char as u32);
            }
        } else if c == s.to_char {
            let nt = (c as u32 - 1) as char;
            assert(nt as u32 == c as u32 - 1);
            assert(ss[0] == (CharSet { to_char: nt, ..s }));
            if segs_chars(ss).contains(x) {
                let j = choose|j: int|
                    0 <= j < ss.len() && (#[trigger] ss[j]).from_char as u32 <= x as u32
                        <= ss[j].to_char as u32;
                assert(x as u32 != c as u32);
            }
            if char_range(s.from_char, s.to_char).contains(x) && x != c {
                assert(x as u32 != c as u32) by {
                    if x as u32 == c as u32 {
                        lemma_char_code_injective(x, c);
                    }
                }
                assert(ss[0].from_char as u32 <= x as u32 <= ss[0].to_char as u32);
            }
        } else {
            let nt = (c as u32 - 1) as char;
            let nf = (c as u32 + 1) as char;
            assert(nt as u32 == c as u32 - 1);
            assert(nf as u32 == c as u32 + 1);
            assert(c as u32 != s.from_char as u32) by {
                if c as u32 == s.from_char as u32 {
                    lemma_char_code_injective(c, s.from_char);
                }
            }
            assert(c as u32 != s.to_char as u32) by {
                if c as u32 == s.to_char as u32 {
                    lemma_char_code_injective(c, s.to_char);
                }
            }
            assert(ss[0] == (CharSet { to_char: nt, ..s }));
            assert(ss[1] == (CharSet { from_char: nf, ..s }));
            if segs_chars(ss).contains(x) {
                let j = choose|j: int|
                    0 <= j < ss.len() && (#[trigger] ss[j]).from_char as u32 <= x as u32
                        <= ss[j].to_char as u32;
                assert(x as u32 != c as u32);
            }
            if char_range(s.from_char, s.to_char).contains(x) && x != c {
                assert(x as u32 != c as u32) by {
                    if x as u32 == c as u32 {
                        lemma_char_code_injective(x, c);
                    }
                }
                if (x as u32) < (c as u32) {
                    assert(ss[0].from_char as u32 <= x as u32 <= ss[0].to_char as u32);
                } else {
                    assert(ss[1].from_char as u32 <= x as u32 <= ss[1].to_char as u32);
                }
            }
        }
    }
    assert(segs_chars(ss) =~= char_range(s.from_char, s.to_char).remove(c));
}

/// Taking a character out of a well-formed segment list removes exactly
/// that character from the set the list covers.
proof fn lemma_diff_segments_chars(segs: Seq<CharSet>, c: char)
    requires
        forall|k: int| 0 <= k < segs.len() ==> seg_wf(#[trigger] segs[k]),
        diff_segments(segs, c) is Some,
    ensures
        segs_chars(diff_segments(segs, c)->0) == segs_chars(segs).remove(c),
        forall|k: int|
            0 <= k < (diff_segments(segs, c)->0).len() ==> seg_wf(
                #[trigger] (diff_segments(segs, c)->0)[k],
            ),
    decreases segs.len(),
{
    let out = diff_segments(segs, c)->0;
    if segs.len() == 0 {
        assert forall|x: char| !segs_chars(segs).contains(x) by {
            if segs_chars(segs).contains(x) {
                let j = choose|j: int|
                    0 <= j < segs.len() && (#[trigger] segs[j]).from_char as u32 <= x as u32
                        <= segs[j].to_char as u32;
            }
        }
        assert(segs_chars(out) =~= segs_chars(segs).remove(c));
    } else {
        let pre = segs.drop_last();
        let last = segs.last();
        lemma_diff_segments_chars(pre, c);
        lemma_seg_minus_chars(last, c);
        let acc = diff_segments(pre, c)->0;
        let ss = seg_minus(last, c)->0;
        assert(out == acc + ss);
        lemma_segs_chars_concat(acc, ss);
        assert(segs =~= pre + seq![last]);
        lemma_segs_chars_concat(pre, seq![last]);
        assert(segs_chars(seq![last]) =~= char_range(last.from_char, last.to_char)) by {
            assert forall|x: char| segs_chars(seq![last]).contains(x) <==> char_range(
                last.from_char,
                last.to_char,
            ).contains(x) by {
                assert(seq![last][0] == last);
                if char_range(last.from_char, last.to_char).contains(x) {
                    assert(seq![last][0].from_char as u32 <= x as u32 <= seq![last][0].to_char
                        as u32);
                }
            }
        }
        assert(segs_chars(out) =~= segs_chars(segs).remove(c));
    }
}

/// Once one segment cannot be stepped, the whole list cannot.
proof fn lemma_diff_segments_none(segs: Seq<CharSet>, c: char, k: int)
    requires
        0 <= k < segs.len(),
        seg_minus(segs[k], c) is None,
    ensures
        diff_segments(segs, c) is None,
    decreases segs.len(),
{
    if k < segs.len() - 1 {
        lemma_diff_segments_none(segs.drop_last(), c, k);
    }
}

/// The character one code point above, where that code point is a
/// character at all.
fn char_succ(c: char) -> (r: Option<char>)
    ensures
        r is Some <==> valid_code(c as u32 + 1),
        r is Some ==> (r->0) as u32 == c as u32 + 1,
{
    proof {
        vstd::utf8::char_is_scalar(c);
    }
    let u = c as u32;
    if u >= 0x10FFFF {
        None
    } else {
        char::from_u32(u + 1)
    }
}

/// The character one code point below, where that code point is a
/// character at all.
fn char_pred(c: char) -> (r: Option<char>)
    ensures
        r is Some <==> valid_code(c as u32 - 1),
        r is Some ==> (r->0) as u32 == c as u32 - 1,
{
    let u = c as u32;
    if u == 0 {
        None
    } else {
        char::from_u32(u - 1)
    }
}

impl CharSetTable {
    /// Takes one character out of a class, under a fresh class
    /// identifier: segments that cover the character are dropped, shrunk
    /// or split, the rest are copied as they are.  Fails with
    /// `UnknownSetId` when the class does not exist, and with
    /// `SymbolRangeOverflow` when a shrink or split would need a
    /// neighbouring code point that is no character; either failure
    /// leaves the table unchanged.
    pub fn difference(&mut self, char_set_id: usize, c: char) -> (r: Result<
        usize,
        ConstructionError,
    >)
        requires
            old(self).inv(),
            max_index_id(old(self)@) < usize::MAX,
        ensures
            final(self).inv(),
            r is Ok <==> has_class(old(self)@, char_set_id as int) && diff_segments(
                segments_of(old(self)@, char_set_id as int),
                c,
            ) is Some,
            r is Err ==> final(self)@ == old(self)@,
            r is Err && !has_class(old(self)@, char_set_id as int) ==> r->Err_0
                == ConstructionError::UnknownSetId,
            r is Err && has_class(old(self)@, char_set_id as int) ==> r->Err_0
                == ConstructionError::SymbolRangeOverflow,
            r is Ok ==> (r->Ok_0) as int == next_class_id(old(self)@) && final(self)@ == old(self)@
                + renumber(
                diff_segments(segments_of(old(self)@, char_set_id as int), c)->0,
                r->Ok_0,
            ) && class_chars(final(self)@, (r->Ok_0) as int) == class_chars(
                old(self)@,
                char_set_id as int,
            ).remove(c),
    {
        let ghost t0 = self@;
        if let None = self.get_max_segment_id(char_set_id) {
            return Err(ConstructionError::UnknownSetId);
        }
        let segs = self.collect_segments(char_set_id);
        let ghost segsv = segs@;
        let ns = segs.len();
        let mut out: Vec<CharSet> = Vec::new();
        let mut k: usize = 0;
        proof {
            assert(diff_segments(segsv.take(0), c) == Some(out@)) by {
                assert(segsv.take(0).len() == 0);
                assert(diff_segments(segsv.take(0), c)->0 =~= out@);
            }
        }
        while k < ns
            invariant
                k <= ns,
                ns == segsv.len(),
                segs@ == segsv,
                forall|j: int| 0 <= j < segsv.len() ==> seg_wf(#[trigger] segsv[j]),
                diff_segments(segsv.take(k as int), c) == Some(out@),
                self@ == t0,
                t0 == old(self)@,
                segsv == segments_of(t0, char_set_id as int),
                has_class(t0, char_set_id as int),
                max_index_id(t0) < usize::MAX,
                self.inv(),
            decreases ns - k,
        {
            proof {
                assert(segsv.take(k + 1).drop_last() =~= segsv.take(k as int));
                assert(segsv.take(k + 1).last() == segsv[k as int]);
            }
            let s = segs[k];
            let ghost outpre = out@;
            if !(s.from_char as u32 <= c as u32 && c as u32 <= s.to_char as u32) {
                out.push(s);
                proof {
                    assert(seg_minus(s, c) == Some(seq![s]));
                    assert(out@ =~= outpre + seq![s]);
                }
            } else if s.from_char as u32 == s.to_char as u32 {
                proof {
                    lemma_char_code_injective(s.from_char, s.to_char);
                    assert(seg_minus(s, c) == Some(Seq::<CharSet>::empty()));
                    assert(out@ =~= outpre + Seq::<CharSet>::empty());
                }
            } else if c as u32 == s.from_char as u32 {
                proof {
                    lemma_char_code_injective(c, s.from_char);
                }
                match char_succ(c) {
                    Some(nf) => {
                        out.push(
                            CharSet {
                                index_id: s.index_id,
                                segment_id: s.segment_id,
                                from_char: nf,
                                to_char: s.to_char,
                            },
                        );
                        proof {
                            lemma_char_code_injective(nf, (c as u32 + 1) as char);
                            assert(seg_minus(s, c) == Some(seq![(CharSet { from_char: nf, ..s })]));
                            assert(out@ =~= outpre + seq![(CharSet { from_char: nf, ..s })]);
                        }
                    },
                    None => {
                        proof {
                            lemma_diff_segments_none(segsv, c, k as int);
                            assert(segsv == segments_of(t0, char_set_id as int));
                            assert(diff_segments(segments_of(t0, char_set_id as int), c) is None);
                            assert(has_class(t0, char_set_id as int));
                        }
                        return Err(ConstructionError::SymbolRangeOverflow);
                    },
                }
            } else if c as u32 == s.to_char as u32 {
                proof {
                    lemma_char_code_injective(c, s.to_char);
                }
                match char_pred(c) {
                    Some(nt) => {
                        out.push(
                            CharSet {
                                index_id: s.index_id,
                                segment_id: s.segment_id,
                                from_char: s.from_char,
                                to_char: nt,
                            },
                        );
                        proof {
                            lemma_char_code_injective(nt, (c as u32 - 1) as char);
                            assert(seg_minus(s, c) == Some(seq![(CharSet { to_char: nt, ..s })]));
                            assert(out@ =~= outpre + seq![(CharSet { to_char: nt, ..s })]);
                        }
                    },
                    None => {
                        proof {
                            lemma_diff_segments_none(segsv, c, k as int);
                            assert(segsv == segments_of(t0, char_set_id as int));
                            assert(diff_segments(segments_of(t0, char_set_id as int), c) is None);
                            assert(has_class(t0, char_set_id as int));
                        }
                        return Err(ConstructionError::SymbolRangeOverflow);
                    },
                }
            } else {
                proof {
                    assert(c != s.from_char);
                    assert(c != s.to_char);
                }
                match (char_pred(c), char_succ(c)) {
                    (Some(nt), Some(nf)) => {
                        out.push(
                            CharSet {
                                index_id: s.index_id,
                                segment_id: s.segment_id,
                                from_char: s.from_char,
                                to_char: nt,
                            },
                        );
                        out.push(
                            CharSet {
                                index_id: s.index_id,
                                segment_id: s.segment_id,
                                from_char: nf,
                                to_char: s.to_char,
                            },
                        );
                        proof {
                            lemma_char_code_injective(nt, (c as u32 - 1) as char);
                            lemma_char_code_injective(nf, (c as u32 + 1) as char);
                            assert(seg_minus(s, c) == Some(seq![
                                (CharSet { to_char: nt, ..s }),
                                (CharSet { from_char: nf, ..s }),
                            ]));
                            assert(out@ =~= outpre + seq![
                                (CharSet { to_char: nt, ..s }),
                                (CharSet { from_char: nf, ..s }),
                            ]);
                        }
                    },
                    _ => {
                        proof {
                            lemma_diff_segments_none(segsv, c, k as int);
                            assert(segsv == segments_of(t0, char_set_id as int));
                            assert(diff_segments(segments_of(t0, char_set_id as int), c) is None);
                            assert(has_class(t0, char_set_id as int));
                        }
                        return Err(ConstructionError::SymbolRangeOverflow);
                    },
                }
            }
            k += 1;
        }
        proof {
            assert(segsv.take(ns as int) =~= segsv);
            lemma_diff_segments_chars(segsv, c);
        }
        let id = match self.get_max() {
            Some(value) => value + 1,
            None => 0,
        };
        let ghost add = renumber(out@, id);
        self.push_renumbered(&out, id);
        proof {
            assert forall|j: int| 0 <= j < add.len() implies (#[trigger] add[j]).index_id
                == id by {}
            lemma_class_chars_append_fresh(t0, add, id as int);
            lemma_segs_chars_renumber(out@, id);
            lemma_class_chars_as_segments(t0, char_set_id as int);
        }
        Ok(id)
    }
}

/// The one or two segments that make a class of exactly two characters.
pub open spec fn pair_segments(c1: char, c2: char, id: usize) -> Seq<CharSet> {
    if c1 as u32 == c2 as u32 {
        seq![(CharSet { index_id: id, segment_id: 0, from_char: c1, to_char: c1 })]
    } else if (c1 as u32) < (c2 as u32) && c1 as u32 + 1 == c2 as u32 {
        seq![(CharSet { index_id: id, segment_id: 0, from_char: c1, to_char: c2 })]
    } else if (c2 as u32) < (c1 as u32) && c2 as u32 + 1 == c1 as u32 {
        seq![(CharSet { index_id: id, segment_id: 0, from_char: c2, to_char: c1 })]
    } else {
        seq![
            (CharSet { index_id: id, segment_id: 0, from_char: c1, to_char: c1 }),
            (CharSet { index_id: id, segment_id: 1, from_char: c2, to_char: c2 }),
        ]
    }
}

} // verus!
