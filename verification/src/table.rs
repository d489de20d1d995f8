//! A columnar table: one array per field of a record type, all of them in a
//! single buffer.
//!
//! The table manages bytes only. It never creates or destroys elements; it
//! lays the arrays out, hands out where each begins, and moves their contents
//! to a larger buffer on demand.

use crate::columns::{
    lemma_empty_layout, lemma_max_align, lemma_offsets, layout_size, max_align, offset, span,
    valid, zero_sized, Columns, FieldLayout,
};
use crate::layout::{
    align_offset, is_aligned, lemma_aligned_room, lemma_aligned_sum, lemma_aligned_to_smaller,
    lemma_mask_is_mod, lemma_round_up,
};
use crate::memory::{buffer_address, copy_bytes, new_buffer};
use vstd::arithmetic::mul::lemma_mul_inequality;
use vstd::arithmetic::power2::is_pow2;
use vstd::prelude::*;

verus! {

/// Why a table could not be made or grown.
#[derive(Clone, Copy, Debug, PartialEq, Eq, Structural)]
pub enum TableError {
    /// The arrays together would need more bytes than a buffer can have.
    CapacityOverflow,
}

/// A raw allocation containing parallel arrays of a record type's fields.
pub struct RawTable {
    columns: Columns,
    pointers: Vec<usize>,
    offsets: Vec<usize>,
    capacity: usize,
    data: Vec<u8>,
    origin: usize,
    base: usize,
}

/// The state of a table.
pub ghost struct TableView {
    /// The fields of the record type.
    pub columns: Seq<FieldLayout>,
    /// How many elements each array can hold.
    pub capacity: int,
    /// The address of the buffer that holds the arrays.
    pub base: int,
    /// For each field, the address of its array.
    pub pointers: Seq<int>,
    /// For each field, the bytes of its array.
    pub data: Seq<Seq<u8>>,
}

impl TableView {
    /// The table owns no memory, and each field pointer is the field's own
    /// alignment, taken as an address.
    pub open spec fn dangling(self) -> bool {
        &&& layout_size(self.columns, self.capacity) == 0
        &&& forall|i: int|
            0 <= i < self.columns.len() ==> #[trigger] self.pointers[i] == self.columns[i].align
    }

    /// The arrays lie back to back, in field order, in a buffer at `base`
    /// that is aligned for every field.
    pub open spec fn packed(self) -> bool {
        &&& 1 <= self.base
        &&& is_aligned(self.base, max_align(self.columns))
        &&& self.base + layout_size(self.columns, self.capacity) <= usize::MAX
        &&& forall|i: int|
            0 <= i < self.columns.len() ==> #[trigger] self.pointers[i] == self.base + offset(
                self.columns,
                self.capacity,
                i,
            )
    }

    /// The table after `value` was stored at byte `offset` of the array of
    /// `field`.
    pub open spec fn store(self, field: int, offset: int, value: u8) -> TableView {
        TableView { data: self.data.update(field, self.data[field].update(offset, value)), ..self }
    }

    /// The first `count` elements of every array are those of `earlier`.
    pub open spec fn keeps(self, earlier: TableView, count: int) -> bool {
        forall|i: int, k: int|
            0 <= i < self.columns.len() && 0 <= k < count * self.columns[i].size
                ==> #[trigger] self.data[i][k] == earlier.data[i][k]
    }

    /// The invariant of a table.
    pub open spec fn wf(self) -> bool {
        &&& valid(self.columns)
        &&& 0 <= self.capacity <= usize::MAX
        &&& zero_sized(self.columns) ==> self.capacity == usize::MAX
        &&& layout_size(self.columns, self.capacity) <= isize::MAX
        &&& self.pointers.len() == self.columns.len()
        &&& self.data.len() == self.columns.len()
        &&& forall|i: int|
            0 <= i < self.columns.len() ==> (#[trigger] self.data[i]).len() == self.capacity
                * self.columns[i].size
        &&& forall|i: int|
            0 <= i < self.columns.len() ==> 1 <= #[trigger] self.pointers[i] && is_aligned(
                self.pointers[i],
                self.columns[i].align as int,
            )
        &&& self.dangling() || self.packed()
    }
}

/// What a new buffer for `count` elements of every field consists of.
struct Parts {
    pointers: Vec<usize>,
    offsets: Vec<usize>,
    data: Vec<u8>,
    origin: usize,
    base: usize,
}

/// The offset of every field's array and the size of the whole buffer, or an
/// error where that size exceeds what a buffer can have.
fn plan(columns: &Columns, count: usize) -> (planned: Result<(Vec<usize>, usize), TableError>)
    requires
        columns.wf(),
    ensures
        planned is Err <==> layout_size(columns@, count as int) > isize::MAX,
        planned matches Ok((offsets, total)) ==> {
            &&& total == layout_size(columns@, count as int)
            &&& offsets@.len() == columns@.len()
            &&& forall|i: int|
                0 <= i < columns@.len() ==> #[trigger] offsets@[i] == offset(
                    columns@,
                    count as int,
                    i,
                )
        },
{
    let align = columns.max_align();
    let mut offsets: Vec<usize> = Vec::new();
    let mut sum: usize = 0;
    let mut i: usize = 0;
    while i < columns.len()
        invariant
            columns.wf(),
            i <= columns@.len(),
            align == max_align(columns@),
            is_pow2(align as int),
            offsets@.len() == i,
            sum == offset(columns@, count as int, i as int),
            forall|j: int|
                0 <= j < i ==> #[trigger] offsets@[j] == offset(columns@, count as int, j),
        decreases columns@.len() - i,
    {
        proof {
            lemma_offsets(columns@, count as int, i as int);
            lemma_offsets(columns@, count as int, i + 1);
        }
        let size = columns.field(i).size;
        let array_size = match count.checked_mul(size) {
            Some(bytes) => bytes,
            None => {
                return Err(TableError::CapacityOverflow);
            },
        };
        let aligned_size = match array_size.checked_add(align_offset(array_size, align)) {
            Some(bytes) => bytes,
            None => {
                return Err(TableError::CapacityOverflow);
            },
        };
        offsets.push(sum);
        sum = match sum.checked_add(aligned_size) {
            Some(bytes) => bytes,
            None => {
                return Err(TableError::CapacityOverflow);
            },
        };
        i += 1;
    }
    if sum > isize::MAX as usize {
        return Err(TableError::CapacityOverflow);
    }
    Ok((offsets, sum))
}

/// A buffer for `count` elements of every field, with the address of each
/// array, or an error where the arrays would need more than a buffer can have.
fn build(columns: &Columns, count: usize) -> (built: Result<Parts, TableError>)
    requires
        columns.wf(),
    ensures
        built is Err <==> layout_size(columns@, count as int) > isize::MAX,
        built matches Ok(parts) ==> {
            &&& 1 <= parts.base
            &&& is_aligned(parts.base as int, max_align(columns@))
            &&& parts.base + layout_size(columns@, count as int) <= usize::MAX
            &&& layout_size(columns@, count as int) == 0 ==> parts.base == max_align(columns@)
            &&& parts.origin + layout_size(columns@, count as int) <= parts.data.len()
            &&& parts.offsets@.len() == columns@.len()
            &&& parts.pointers@.len() == columns@.len()
            &&& forall|i: int|
                0 <= i < columns@.len() ==> #[trigger] parts.offsets@[i] == offset(
                    columns@,
                    count as int,
                    i,
                )
            &&& forall|i: int|
                0 <= i < columns@.len() ==> #[trigger] parts.pointers@[i] == parts.base + offset(
                    columns@,
                    count as int,
                    i,
                )
        },
{
    let (offsets, total) = match plan(columns, count) {
        Ok(planned) => planned,
        Err(error) => {
            return Err(error);
        },
    };
    let align = columns.max_align();
    let mut data: Vec<u8> = Vec::new();
    let mut origin: usize = 0;
    let mut base: usize = align;
    proof {
        lemma_max_align(columns@);
        lemma_mask_is_mod(0, align);
        lemma_offsets(columns@, count as int, columns@.len() as int);
    }
    if total != 0 {
        proof {
            lemma_aligned_room(total, align);
        }
        // A buffer of bytes starts anywhere: leave room to align inside it.
        data = new_buffer(total + (align - 1));
        let addr = buffer_address(&data);
        origin = align_offset(addr, align);
        base = addr + origin;
        proof {
            lemma_round_up(addr as int, align as int);
        }
    }
    let mut pointers: Vec<usize> = Vec::new();
    let mut i: usize = 0;
    while i < offsets.len()
        invariant
            columns.wf(),
            i <= offsets@.len(),
            offsets@.len() == columns@.len(),
            pointers@.len() == i,
            total == layout_size(columns@, count as int),
            base + total <= usize::MAX,
            forall|j: int|
                0 <= j < columns@.len() ==> #[trigger] offsets@[j] == offset(
                    columns@,
                    count as int,
                    j,
                ),
            forall|j: int|
                0 <= j < i ==> #[trigger] pointers@[j] == base + offset(columns@, count as int, j),
        decreases offsets@.len() - i,
    {
        proof {
            lemma_offsets(columns@, count as int, i as int);
        }
        pointers.push(base + offsets[i]);
        i += 1;
    }
    Ok(Parts { pointers, offsets, data, origin, base })
}

impl View for RawTable {
    type V = TableView;

    closed spec fn view(&self) -> TableView {
        TableView {
            columns: self.columns@,
            capacity: self.capacity as int,
            base: self.base as int,
            pointers: Seq::new(self.pointers@.len(), |i: int| self.pointers@[i] as int),
            data: Seq::new(
                self.columns@.len(),
                |i: int|
                    self.data@.subrange(
                        self.origin + self.offsets@[i],
                        self.origin + self.offsets@[i] + self.capacity * self.columns@[i].size,
                    ),
            ),
        }
    }
}

impl RawTable {
    /// The invariant of a table: its state is well formed, and the buffer it
    /// owns holds every array.
    pub open spec fn wf(&self) -> bool {
        self@.wf() && self.backed()
    }

    /// The buffer that the table owns holds every array where the layout
    /// places it.
    pub closed spec fn backed(&self) -> bool {
        &&& self.offsets@.len() == self.columns@.len()
        &&& forall|i: int|
            0 <= i < self.columns@.len() ==> #[trigger] self.offsets@[i] == offset(
                self.columns@,
                self.capacity as int,
                i,
            )
        &&& self.origin + layout_size(self.columns@, self.capacity as int) <= self.data.len()
    }

    /// Create a `RawTable` without allocating.
    ///
    /// It can hold no element, unless the record type is zero-sized: then it
    /// can hold any number of them.
    pub fn new(columns: Columns) -> (table: RawTable)
        requires
            columns.wf(),
        ensures
            table.wf(),
            table@.columns == columns@,
            table@.capacity == if zero_sized(columns@) {
                usize::MAX as int
            } else {
                0
            },
            table@.dangling(),
    {
        let pointers = columns.dangling();
        let capacity = if columns.is_zero_sized() {
            usize::MAX
        } else {
            0
        };
        let mut offsets: Vec<usize> = Vec::new();
        let mut i: usize = 0;
        proof {
            lemma_empty_layout(columns@, capacity as int);
        }
        while i < columns.len()
            invariant
                i <= columns@.len(),
                offsets@.len() == i,
                forall|j: int| 0 <= j <= columns@.len() ==> #[trigger] offset(columns@, capacity as int, j) == 0,
                forall|j: int| 0 <= j < i ==> #[trigger] offsets@[j] == 0,
            decreases columns@.len() - i,
        {
            offsets.push(0);
            i += 1;
        }
        let table = RawTable {
            columns,
            pointers,
            offsets,
            capacity,
            data: Vec::new(),
            origin: 0,
            base: 1,
        };
        proof {
            table.lemma_established();
        }
        table
    }

    /// Create a `RawTable` with enough space for `capacity` elements of each
    /// field type.
    ///
    /// The arrays lie in one buffer, in field order, each behind the span of
    /// the one before; the buffer is aligned for every field. Where the arrays
    /// take no memory there is no buffer, and the largest alignment stands in
    /// for its address. A zero-sized record type has unbounded capacity.
    pub fn with_capacity(columns: Columns, capacity: usize) -> (table: Result<RawTable, TableError>)
        requires
            columns.wf(),
        ensures
            table is Err <==> layout_size(columns@, capacity as int) > isize::MAX,
            table matches Err(error) ==> error == TableError::CapacityOverflow,
            table matches Ok(t) ==> {
                &&& t.wf()
                &&& t@.columns == columns@
                &&& t@.capacity == if zero_sized(columns@) {
                    usize::MAX as int
                } else {
                    capacity as int
                }
                &&& t@.packed()
                &&& layout_size(columns@, capacity as int) == 0 ==> t@.base == max_align(
                    columns@,
                )
            },
    {
        let parts = match build(&columns, capacity) {
            Ok(parts) => parts,
            Err(error) => {
                return Err(error);
            },
        };
        let zero = columns.is_zero_sized();
        let unbounded = if zero {
            usize::MAX
        } else {
            capacity
        };
        proof {
            if zero {
                lemma_empty_layout(columns@, capacity as int);
                lemma_empty_layout(columns@, unbounded as int);
            }
        }
        let table = RawTable {
            columns,
            pointers: parts.pointers,
            offsets: parts.offsets,
            capacity: unbounded,
            data: parts.data,
            origin: parts.origin,
            base: parts.base,
        };
        proof {
            table.lemma_established();
        }
        Ok(table)
    }

    /// What the fields of a table say of its state once the arrays are
    /// placed: each array has its length and each pointer its alignment.
    proof fn lemma_established(&self)
        requires
            valid(self.columns@),
            zero_sized(self.columns@) ==> self.capacity == usize::MAX,
            layout_size(self.columns@, self.capacity as int) <= isize::MAX,
            self.pointers@.len() == self.columns@.len(),
            self.offsets@.len() == self.columns@.len(),
            forall|i: int|
                0 <= i < self.columns@.len() ==> #[trigger] self.offsets@[i] == offset(
                    self.columns@,
                    self.capacity as int,
                    i,
                ),
            self.origin + layout_size(self.columns@, self.capacity as int) <= self.data.len(),
            self@.dangling() || self@.packed(),
        ensures
            self.wf(),
    {
        let fields = self.columns@;
        let count = self.capacity as int;
        lemma_max_align(fields);
        assert forall|i: int| 0 <= i < fields.len() implies (#[trigger] self@.data[i]).len()
            == count * fields[i].size by {
            lemma_offsets(fields, count, i);
            lemma_offsets(fields, count, i + 1);
        }
        assert forall|i: int| 0 <= i < fields.len() implies 1 <= #[trigger] self@.pointers[i]
            && is_aligned(self@.pointers[i], fields[i].align as int) by {
            lemma_offsets(fields, count, i);
            lemma_mask_is_mod(0, fields[i].align);
            if self@.dangling() {
                assert(self@.pointers[i] == fields[i].align);
                assert(fields[i].align as int % fields[i].align as int == 0) by {
                    vstd::arithmetic::div_mod::lemma_mod_self_0(fields[i].align as int);
                }
            } else {
                lemma_aligned_sum(self@.base, offset(fields, count, i), max_align(fields));
                lemma_aligned_to_smaller(
                    self@.pointers[i],
                    fields[i].align,
                    max_align(fields) as usize,
                );
            }
        }
    }

    /// The fields of the record type.
    pub fn columns(&self) -> (columns: &Columns)
        ensures
            columns@ == self@.columns,
    {
        &self.columns
    }

    /// Get the address of a field array.
    pub fn ptr(&self, field: usize) -> (address: usize)
        requires
            self.wf(),
            field < self@.columns.len(),
        ensures
            address == self@.pointers[field as int],
    {
        self.pointers[field]
    }

    /// Get the capacity of the allocation.
    pub fn capacity(&self) -> (count: usize)
        ensures
            count == self@.capacity,
    {
        self.capacity
    }

    /// The arrays do not overlap inside the buffer, and each lies inside it.
    proof fn lemma_arrays_apart(&self, i: int, j: int)
        requires
            self.wf(),
            0 <= i < j < self.columns@.len(),
        ensures
            self.offsets@[i] + self.capacity * self.columns@[i].size <= self.offsets@[j],
            self.offsets@[j] + self.capacity * self.columns@[j].size <= layout_size(
                self.columns@,
                self.capacity as int,
            ),
            0 <= self.capacity * self.columns@[i].size,
            0 <= self.capacity * self.columns@[j].size,
    {
        let fields = self.columns@;
        let count = self.capacity as int;
        lemma_offsets(fields, count, i);
        lemma_offsets(fields, count, i + 1);
        lemma_offsets(fields, count, j);
        lemma_offsets(fields, count, j + 1);
    }

    /// The array of `field` lies inside the buffer.
    proof fn lemma_array_inside(&self, field: int)
        requires
            self.wf(),
            0 <= field < self.columns@.len(),
        ensures
            0 <= self.capacity * self.columns@[field].size,
            self.offsets@[field] + self.capacity * self.columns@[field].size <= layout_size(
                self.columns@,
                self.capacity as int,
            ),
    {
        lemma_offsets(self.columns@, self.capacity as int, field);
        lemma_offsets(self.columns@, self.capacity as int, field + 1);
    }

    /// The byte at `offset` in the array of `field`, or `None` where the
    /// table has no such byte.
    pub fn read(&self, field: usize, offset: usize) -> (byte: Option<u8>)
        requires
            self.wf(),
        ensures
            byte == if field < self@.columns.len() && offset < self@.data[field as int].len() {
                Some(self@.data[field as int][offset as int])
            } else {
                None
            },
    {
        if field >= self.columns.len() {
            return None;
        }
        proof {
            self.lemma_array_inside(field as int);
        }
        let len = self.capacity * self.columns.field(field).size;
        if offset >= len {
            return None;
        }
        Some(self.data[self.origin + self.offsets[field] + offset])
    }

    /// Stores `value` at `offset` in the array of `field` and says whether
    /// the table has such a byte; it changes nothing where it has not.
    pub fn write(&mut self, field: usize, offset: usize, value: u8) -> (done: bool)
        requires
            old(self).wf(),
        ensures
            final(self).wf(),
            done == (field < old(self)@.columns.len() && offset < old(self)@.data[field as int].len()),
            done ==> final(self)@ == old(self)@.store(field as int, offset as int, value),
            !done ==> final(self)@ == old(self)@,
    {
        if field >= self.columns.len() {
            return false;
        }
        proof {
            self.lemma_array_inside(field as int);
        }
        let len = self.capacity * self.columns.field(field).size;
        if offset >= len {
            return false;
        }
        let at = self.origin + self.offsets[field] + offset;
        self.data[at] = value;
        proof {
            let before = old(self)@;
            let after = before.store(field as int, offset as int, value);
            assert forall|i: int| 0 <= i < before.columns.len() implies #[trigger] self@.data[i]
                =~= after.data[i] by {
                if i < field {
                    old(self).lemma_arrays_apart(i, field as int);
                } else if i > field {
                    old(self).lemma_arrays_apart(field as int, i);
                }
            }
            assert(self@.data =~= after.data);
            assert(self@.pointers =~= after.pointers);
            assert(self@ == after);
        }
        true
    }

    /// The number of bytes that the arrays occupy, which is what the table
    /// gives back when it is dropped.
    pub fn allocated_size(&self) -> (bytes: usize)
        requires
            self.wf(),
        ensures
            bytes == layout_size(self@.columns, self@.capacity),
    {
        let align = self.columns.max_align();
        let mut bytes: usize = 0;
        let mut i: usize = 0;
        while i < self.columns.len()
            invariant
                self.wf(),
                i <= self.columns@.len(),
                align == max_align(self.columns@),
                is_pow2(align as int),
                bytes == offset(self.columns@, self.capacity as int, i as int),
            decreases self.columns@.len() - i,
        {
            proof {
                lemma_offsets(self.columns@, self.capacity as int, i as int);
                lemma_offsets(self.columns@, self.capacity as int, i + 1);
            }
            let array_size = self.capacity * self.columns.field(i).size;
            bytes = bytes + (array_size + align_offset(array_size, align));
            i += 1;
        }
        bytes
    }

    /// Ensure that the table contains enough space for `used + extra`
    /// elements, of which the first `used` are in use.
    ///
    /// Nothing happens where the capacity already suffices. Otherwise the
    /// arrays move to a new buffer for exactly `used + extra` elements, and
    /// the first `used` elements of each array keep their bytes. Addresses
    /// taken before no longer name the arrays.
    pub fn reserve_exact(&mut self, used: usize, extra: usize) -> (result: Result<(), TableError>)
        requires
            old(self).wf(),
            used <= old(self)@.capacity,
        ensures
            final(self).wf(),
            final(self)@.columns == old(self)@.columns,
            old(self)@.capacity - used >= extra ==> result is Ok && final(self)@ == old(self)@,
            old(self)@.capacity - used < extra ==> {
                &&& result is Err <==> used + extra > usize::MAX || layout_size(
                    old(self)@.columns,
                    used + extra,
                ) > isize::MAX
                &&& result is Ok ==> {
                    &&& final(self)@.capacity == used + extra
                    &&& final(self)@.capacity > old(self)@.capacity
                    &&& final(self)@.packed()
                    &&& final(self)@.keeps(old(self)@, used as int)
                }
            },
            result matches Err(error) ==> error == TableError::CapacityOverflow && final(self)@
                == old(self)@,
    {
        if self.capacity - used >= extra {
            return Ok(());
        }
        let capacity = match used.checked_add(extra) {
            Some(capacity) => capacity,
            None => {
                return Err(TableError::CapacityOverflow);
            },
        };
        let parts = match build(&self.columns, capacity) {
            Ok(parts) => parts,
            Err(error) => {
                return Err(error);
            },
        };
        let Parts { pointers, offsets, mut data, origin, base } = parts;
        let ghost fields = self.columns@;
        proof {
            lemma_offsets(fields, capacity as int, fields.len() as int);
        }
        let mut i: usize = 0;
        while i < self.columns.len()
            invariant
                self.wf(),
                *self == *old(self),
                fields == self.columns@,
                valid(fields),
                used <= self.capacity < capacity,
                i <= fields.len(),
                offsets@.len() == fields.len(),
                origin + layout_size(fields, capacity as int) <= data.len(),
                forall|j: int|
                    0 <= j < fields.len() ==> #[trigger] offsets@[j] == offset(
                        fields,
                        capacity as int,
                        j,
                    ),
                forall|j: int, k: int|
                    0 <= j < i && 0 <= k < used * fields[j].size ==> data@[origin + offset(
                        fields,
                        capacity as int,
                        j,
                    ) + k] == #[trigger] self@.data[j][k],
            decreases fields.len() - i,
        {
            let size = self.columns.field(i).size;
            proof {
                self.lemma_array_inside(i as int);
                lemma_offsets(fields, capacity as int, i as int);
                lemma_offsets(fields, capacity as int, i + 1);
                lemma_mul_inequality(used as int, self.capacity as int, size as int);
                lemma_mul_inequality(used as int, capacity as int, size as int);
                vstd::arithmetic::mul::lemma_mul_nonnegative(used as int, size as int);
            }
            let ghost earlier = data@;
            copy_bytes(
                &mut data,
                origin + offsets[i],
                &self.data,
                self.origin + self.offsets[i],
                used * size,
            );
            proof {
                assert forall|j: int, k: int|
                    0 <= j < i + 1 && 0 <= k < used * fields[j].size implies data@[origin + offset(
                    fields,
                    capacity as int,
                    j,
                ) + k] == #[trigger] self@.data[j][k] by {
                    if j < i {
                        lemma_offsets(fields, capacity as int, j);
                        lemma_offsets(fields, capacity as int, j + 1);
                        lemma_mul_inequality(used as int, capacity as int, fields[j].size as int);
                        let at = origin + offset(fields, capacity as int, j) + k;
                        assert(offset(fields, capacity as int, j + 1) <= offset(
                            fields,
                            capacity as int,
                            i as int,
                        ));
                        assert(data@[at] == earlier[at]);
                    } else {
                        let at = origin + offsets@[i as int];
                        assert(data@[at + k] == self.data@[self.origin + self.offsets@[i as int]
                            + k]);
                    }
                }
            }
            i += 1;
        }
        self.pointers = pointers;
        self.offsets = offsets;
        self.data = data;
        self.origin = origin;
        self.base = base;
        self.capacity = capacity;
        proof {
            assert(self@.packed());
            self.lemma_established();
            assert forall|j: int, k: int|
                0 <= j < fields.len() && 0 <= k < used * fields[j].size implies #[trigger] self@.data[j][k]
                == old(self)@.data[j][k] by {
                lemma_offsets(fields, capacity as int, j);
                lemma_offsets(fields, capacity as int, j + 1);
                lemma_mul_inequality(used as int, capacity as int, fields[j].size as int);
                old(self).lemma_array_inside(j);
                lemma_mul_inequality(used as int, old(self).capacity as int, fields[j].size as int);
            }
        }
        Ok(())
    }
}

} // verus!
