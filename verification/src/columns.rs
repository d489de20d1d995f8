//! The layout of a record type's fields, and the arithmetic that places one
//! array per field inside a single buffer.

use crate::layout::{is_aligned, is_power_of_two, lemma_aligned_sum, lemma_round_up, round_up};
use vstd::arithmetic::mul::{lemma_mul_basics, lemma_mul_nonnegative};
use vstd::arithmetic::power2::is_pow2;
use vstd::prelude::*;

verus! {

/// Size and alignment of one field of a record type, in bytes.
#[derive(Clone, Copy, Debug, PartialEq, Eq, Structural)]
pub struct FieldLayout {
    pub size: usize,
    pub align: usize,
}

/// The fields of a record type, in declaration order.
///
/// A table keeps one array per field; the position of a field here is the
/// index by which its array is found.
pub struct Columns {
    fields: Vec<FieldLayout>,
}

/// Every alignment is a power of two.
pub open spec fn valid(fields: Seq<FieldLayout>) -> bool {
    forall|i: int| 0 <= i < fields.len() ==> is_pow2((#[trigger] fields[i]).align as int)
}

/// The record type occupies no memory: every field has size zero.
pub open spec fn zero_sized(fields: Seq<FieldLayout>) -> bool {
    forall|i: int| 0 <= i < fields.len() ==> (#[trigger] fields[i]).size == 0
}

/// The largest alignment among the fields, and 1 where there is no field.
pub open spec fn max_align(fields: Seq<FieldLayout>) -> int
    decreases fields.len(),
{
    if fields.len() == 0 {
        1
    } else {
        let rest = max_align(fields.drop_last());
        if fields.last().align > rest {
            fields.last().align as int
        } else {
            rest
        }
    }
}

/// The bytes set aside for the array of field `i` when each array holds
/// `count` elements: the array's size, rounded up to the largest alignment.
pub open spec fn span(fields: Seq<FieldLayout>, count: int, i: int) -> int {
    round_up(count * fields[i].size, max_align(fields))
}

/// Where the array of field `i` starts inside the buffer: behind the spans
/// of all fields before it.
pub open spec fn offset(fields: Seq<FieldLayout>, count: int, i: int) -> int
    decreases i,
{
    if i <= 0 {
        0
    } else {
        offset(fields, count, i - 1) + span(fields, count, i - 1)
    }
}

/// The size of the buffer that holds `count` elements of every field.
pub open spec fn layout_size(fields: Seq<FieldLayout>, count: int) -> int {
    offset(fields, count, fields.len() as int)
}

/// The largest alignment is a power of two, it is the alignment of some field
/// unless there is none, and no field's alignment exceeds it.
pub proof fn lemma_max_align(fields: Seq<FieldLayout>)
    requires
        valid(fields),
    ensures
        is_pow2(max_align(fields)),
        1 <= max_align(fields) <= usize::MAX,
        forall|i: int| 0 <= i < fields.len() ==> (#[trigger] fields[i]).align <= max_align(fields),
        fields.len() > 0 ==> exists|i: int|
            0 <= i < fields.len() && (#[trigger] fields[i]).align == max_align(fields),
    decreases fields.len(),
{
    reveal(is_pow2);
    if fields.len() > 0 {
        let rest = fields.drop_last();
        lemma_max_align(rest);
        assert forall|i: int| 0 <= i < fields.len() implies (#[trigger] fields[i]).align
            <= max_align(fields) by {
            if i < rest.len() {
                assert(rest[i] == fields[i]);
            }
        }
        if fields.last().align > max_align(rest) {
            assert(fields[fields.len() - 1].align == max_align(fields));
        } else if rest.len() > 0 {
            let i = choose|i: int| 0 <= i < rest.len() && (#[trigger] rest[i]).align == max_align(rest);
            assert(fields[i] == rest[i]);
        } else {
            assert(is_pow2(fields.last().align as int));
            assert(fields[fields.len() - 1].align == max_align(fields));
        }
    }
}

/// Spans are multiples of the largest alignment and at least as large as the
/// arrays they hold; offsets are multiples of it too, and grow with the index.
pub proof fn lemma_offsets(fields: Seq<FieldLayout>, count: int, i: int)
    requires
        valid(fields),
        0 <= count,
        0 <= i <= fields.len(),
    ensures
        is_aligned(offset(fields, count, i), max_align(fields)),
        0 <= offset(fields, count, i),
        i < fields.len() ==> {
            &&& 0 <= count * fields[i].size <= span(fields, count, i)
            &&& is_aligned(span(fields, count, i), max_align(fields))
            &&& offset(fields, count, i) + span(fields, count, i) == offset(fields, count, i + 1)
        },
        forall|j: int| 0 <= j <= i ==> #[trigger] offset(fields, count, j) <= offset(fields, count, i),
        offset(fields, count, i) <= layout_size(fields, count),
    decreases fields.len() - i, i,
{
    let align = max_align(fields);
    lemma_max_align(fields);
    if i > 0 {
        lemma_offsets_below(fields, count, i);
    }
    if i < fields.len() {
        lemma_mul_nonnegative(count, fields[i].size as int);
        lemma_round_up(count * fields[i].size, align);
        lemma_offsets(fields, count, i + 1);
    }
    assert(is_aligned(offset(fields, count, i), align)) by {
        lemma_offsets_below(fields, count, i);
    }
    assert forall|j: int| 0 <= j <= i implies #[trigger] offset(fields, count, j) <= offset(
        fields,
        count,
        i,
    ) by {
        lemma_offsets_below(fields, count, i);
    }
}

/// The part of `lemma_offsets` that looks down from `i`.
proof fn lemma_offsets_below(fields: Seq<FieldLayout>, count: int, i: int)
    requires
        valid(fields),
        0 <= count,
        0 <= i <= fields.len(),
    ensures
        is_aligned(offset(fields, count, i), max_align(fields)),
        forall|j: int| 0 <= j <= i ==> 0 <= #[trigger] offset(fields, count, j) <= offset(fields, count, i),
    decreases i,
{
    let align = max_align(fields);
    lemma_max_align(fields);
    if i > 0 {
        lemma_offsets_below(fields, count, i - 1);
        lemma_mul_nonnegative(count, fields[i - 1].size as int);
        lemma_round_up(count * fields[i - 1].size, align);
        lemma_aligned_sum(offset(fields, count, i - 1), span(fields, count, i - 1), align);
    }
}

/// A layout takes no memory exactly when no element is stored or the record
/// type is zero-sized; every offset is then zero.
pub proof fn lemma_empty_layout(fields: Seq<FieldLayout>, count: int)
    requires
        valid(fields),
        0 <= count,
    ensures
        layout_size(fields, count) == 0 <==> count == 0 || zero_sized(fields),
        layout_size(fields, count) == 0 ==> forall|i: int|
            0 <= i <= fields.len() ==> #[trigger] offset(fields, count, i) == 0,
{
    let total = layout_size(fields, count);
    if total == 0 {
        assert forall|i: int| 0 <= i <= fields.len() implies #[trigger] offset(fields, count, i)
            == 0 by {
            lemma_offsets(fields, count, i);
        }
        if count != 0 {
            assert forall|i: int| 0 <= i < fields.len() implies (#[trigger] fields[i]).size
                == 0 by {
                lemma_offsets(fields, count, i);
                lemma_offsets(fields, count, i + 1);
                assert(count * fields[i].size == 0);
                assert(fields[i].size == 0) by (nonlinear_arith)
                    requires
                        count * fields[i].size == 0,
                        count > 0,
                        fields[i].size >= 0,
                ;
            }
        }
    } else {
        lemma_zero_offsets(fields, count, fields.len() as int);
    }
}

/// Where every array is empty, every offset is zero.
proof fn lemma_zero_offsets(fields: Seq<FieldLayout>, count: int, i: int)
    requires
        valid(fields),
        0 <= count,
        0 <= i <= fields.len(),
    ensures
        count == 0 || zero_sized(fields) ==> offset(fields, count, i) == 0,
    decreases i,
{
    if i > 0 && (count == 0 || zero_sized(fields)) {
        lemma_zero_offsets(fields, count, i - 1);
        lemma_max_align(fields);
        lemma_mul_basics(fields[i - 1].size as int);
        lemma_mul_basics(count);
        assert(count * fields[i - 1].size == 0);
    }
}

impl View for Columns {
    type V = Seq<FieldLayout>;

    closed spec fn view(&self) -> Seq<FieldLayout> {
        self.fields@
    }
}

impl Columns {
    /// The invariant of a schema: its alignments are powers of two.
    pub open spec fn wf(&self) -> bool {
        valid(self@)
    }

    /// A schema of the given fields, or `None` where some alignment is not a
    /// power of two.
    pub fn new(fields: Vec<FieldLayout>) -> (columns: Option<Columns>)
        ensures
            columns is Some <==> valid(fields@),
            columns matches Some(c) ==> c@ == fields@ && c.wf(),
    {
        let mut i: usize = 0;
        while i < fields.len()
            invariant
                i <= fields.len(),
                forall|j: int| 0 <= j < i ==> is_pow2((#[trigger] fields@[j]).align as int),
            decreases fields.len() - i,
        {
            if !is_power_of_two(fields[i].align) {
                return None;
            }
            i += 1;
        }
        Some(Columns { fields })
    }

    /// The number of fields.
    pub fn len(&self) -> (n: usize)
        ensures
            n == self@.len(),
    {
        self.fields.len()
    }

    /// Size and alignment of field `i`.
    pub fn field(&self, i: usize) -> (layout: FieldLayout)
        requires
            i < self@.len(),
        ensures
            layout == self@[i as int],
    {
        self.fields[i]
    }

    /// The alignment of a buffer that holds an array of every field.
    pub fn max_align(&self) -> (align: usize)
        requires
            self.wf(),
        ensures
            align == max_align(self@),
            is_pow2(align as int),
    {
        let mut align: usize = 1;
        let mut i: usize = 0;
        proof {
            assert(self@.take(0) =~= Seq::empty());
        }
        while i < self.fields.len()
            invariant
                i <= self.fields.len(),
                self.fields@ == self@,
                align == max_align(self@.take(i as int)),
            decreases self.fields.len() - i,
        {
            proof {
                assert(self@.take(i + 1).drop_last() =~= self@.take(i as int));
            }
            if self.fields[i].align > align {
                align = self.fields[i].align;
            }
            i += 1;
        }
        proof {
            assert(self@.take(i as int) =~= self@);
            lemma_max_align(self@);
        }
        align
    }

    /// Whether the record type occupies no memory.
    pub fn is_zero_sized(&self) -> (yes: bool)
        ensures
            yes == zero_sized(self@),
    {
        let mut i: usize = 0;
        while i < self.fields.len()
            invariant
                i <= self.fields.len(),
                self.fields@ == self@,
                forall|j: int| 0 <= j < i ==> (#[trigger] self@[j]).size == 0,
            decreases self.fields.len() - i,
        {
            if self.fields[i].size != 0 {
                return false;
            }
            i += 1;
        }
        true
    }

    /// The field pointers of a table that owns no memory: for each field its
    /// own alignment, taken as an address. Such a pointer is aligned for its
    /// field and is never read or written through.
    pub fn dangling(&self) -> (pointers: Vec<usize>)
        ensures
            pointers@.len() == self@.len(),
            forall|i: int| 0 <= i < self@.len() ==> #[trigger] pointers@[i] == self@[i].align,
    {
        let mut pointers: Vec<usize> = Vec::new();
        let mut i: usize = 0;
        while i < self.fields.len()
            invariant
                i <= self.fields.len(),
                self.fields@ == self@,
                pointers@.len() == i,
                forall|j: int| 0 <= j < i ==> #[trigger] pointers@[j] == self@[j].align,
            decreases self.fields.len() - i,
        {
            pointers.push(self.fields[i].align);
            i += 1;
        }
        pointers
    }
}

} // verus!
