use memlayout::columns::{Columns, FieldLayout};
use memlayout::table::{RawTable, TableError};

fn data_columns() -> Columns {
    Columns::new(vec![
        FieldLayout { size: 1, align: 1 },
        FieldLayout { size: 4, align: 4 },
        FieldLayout { size: 8, align: 8 },
    ])
    .unwrap()
}

fn put(table: &mut RawTable, field: usize, index: usize, bytes: &[u8]) {
    for (k, &byte) in bytes.iter().enumerate() {
        assert!(table.write(field, index * bytes.len() + k, byte));
    }
}

fn get(table: &RawTable, field: usize, index: usize, size: usize) -> Vec<u8> {
    (0..size).map(|k| table.read(field, index * size + k).unwrap()).collect()
}

#[test]
fn layout() {
    let mut table = RawTable::with_capacity(data_columns(), 64).unwrap();

    let x = table.ptr(0);
    let y = table.ptr(1);
    let z = table.ptr(2);
    assert_eq!(x & (1 - 1), 0);
    assert_eq!(y & (4 - 1), 0);
    assert_eq!(z & (8 - 1), 0);
    for i in 0..64 {
        put(&mut table, 0, i, &(i as u8).to_ne_bytes());
        put(&mut table, 1, i, &(64 + i as u32).to_ne_bytes());
        put(&mut table, 2, i, &(128 + i as u64).to_ne_bytes());
    }

    table.reserve_exact(64, 64).unwrap();

    for i in 0..64 {
        let x = u8::from_ne_bytes(get(&table, 0, i, 1).try_into().unwrap());
        let y = u32::from_ne_bytes(get(&table, 1, i, 4).try_into().unwrap());
        let z = u64::from_ne_bytes(get(&table, 2, i, 8).try_into().unwrap());
        assert_eq!(x as usize, i);
        assert_eq!(y as usize, 64 + i);
        assert_eq!(z as usize, 128 + i);
    }
}

#[test]
fn schema_needs_power_of_two_alignments() {
    assert!(Columns::new(vec![FieldLayout { size: 4, align: 3 }]).is_none());
    assert!(Columns::new(vec![FieldLayout { size: 4, align: 0 }]).is_none());
    assert!(Columns::new(vec![
        FieldLayout { size: 1, align: 1 },
        FieldLayout { size: 2, align: 6 },
    ])
    .is_none());
    assert!(Columns::new(vec![]).is_some());
    assert!(Columns::new(vec![FieldLayout { size: 3, align: 2 }]).is_some());
}

#[test]
fn schema_reports_its_fields() {
    let columns = data_columns();
    assert_eq!(columns.len(), 3);
    assert_eq!(columns.field(1), FieldLayout { size: 4, align: 4 });
    assert_eq!(columns.max_align(), 8);
    assert!(!columns.is_zero_sized());
    assert_eq!(columns.dangling(), vec![1, 4, 8]);
    let none = Columns::new(vec![]).unwrap();
    assert_eq!(none.max_align(), 1);
    assert!(none.is_zero_sized());
    assert_eq!(none.dangling(), Vec::<usize>::new());
}

#[test]
fn new_table_points_at_each_alignment() {
    let table = RawTable::new(data_columns());
    assert_eq!(table.capacity(), 0);
    assert_eq!(table.ptr(0), 1);
    assert_eq!(table.ptr(1), 4);
    assert_eq!(table.ptr(2), 8);
    assert_eq!(table.allocated_size(), 0);
    assert_eq!(table.read(0, 0), None);
}

#[test]
fn with_capacity_zero_points_at_the_largest_alignment() {
    let table = RawTable::with_capacity(data_columns(), 0).unwrap();
    assert_eq!(table.capacity(), 0);
    for field in 0..3 {
        assert_eq!(table.ptr(field), 8);
    }
    assert_eq!(table.allocated_size(), 0);
}

#[test]
fn arrays_lie_back_to_back_in_rounded_spans() {
    let table = RawTable::with_capacity(data_columns(), 64).unwrap();
    let base = table.ptr(0);
    assert_eq!(base % 8, 0);
    assert_eq!(table.ptr(1), base + 64);
    assert_eq!(table.ptr(2), base + 64 + 256);
    assert_eq!(table.allocated_size(), 64 + 256 + 512);
    assert_eq!(table.capacity(), 64);

    let table = RawTable::with_capacity(data_columns(), 3).unwrap();
    let base = table.ptr(0);
    assert_eq!(table.ptr(1), base + 8);
    assert_eq!(table.ptr(2), base + 8 + 16);
    assert_eq!(table.allocated_size(), 8 + 16 + 24);
}

#[test]
fn buffer_honours_a_large_alignment() {
    let columns = Columns::new(vec![
        FieldLayout { size: 1, align: 1 },
        FieldLayout { size: 64, align: 4096 },
    ])
    .unwrap();
    let table = RawTable::with_capacity(columns, 5).unwrap();
    assert_eq!(table.ptr(0) % 4096, 0);
    assert_eq!(table.ptr(1), table.ptr(0) + 4096);
    assert_eq!(table.allocated_size(), 2 * 4096);
}

#[test]
fn zero_sized_record_has_unbounded_capacity() {
    let zero = || {
        Columns::new(vec![FieldLayout { size: 0, align: 1 }, FieldLayout { size: 0, align: 4 }])
            .unwrap()
    };
    let table = RawTable::new(zero());
    assert_eq!(table.capacity(), usize::MAX);
    let mut table = RawTable::with_capacity(zero(), 10).unwrap();
    assert_eq!(table.capacity(), usize::MAX);
    assert_eq!(table.ptr(0), 4);
    assert_eq!(table.ptr(1), 4);
    assert_eq!(table.allocated_size(), 0);
    assert_eq!(table.reserve_exact(5, 10), Ok(()));
    assert_eq!(table.capacity(), usize::MAX);
    assert_eq!(table.reserve_exact(usize::MAX, 1), Err(TableError::CapacityOverflow));
    assert_eq!(table.capacity(), usize::MAX);
    let table = RawTable::with_capacity(zero(), usize::MAX).unwrap();
    assert_eq!(table.capacity(), usize::MAX);
    let fieldless = RawTable::with_capacity(Columns::new(vec![]).unwrap(), 7).unwrap();
    assert_eq!(fieldless.capacity(), usize::MAX);
}

#[test]
fn giant_capacity_overflows() {
    let too_big = |capacity: usize| {
        matches!(
            RawTable::with_capacity(data_columns(), capacity),
            Err(TableError::CapacityOverflow)
        )
    };
    assert!(too_big(usize::MAX));
    assert!(too_big(usize::MAX / 8));
    assert!(too_big(usize::MAX / 13));
    assert!(too_big(isize::MAX as usize / 13 + 1));
    let bytes = Columns::new(vec![FieldLayout { size: 1, align: 1 }]).unwrap();
    assert!(matches!(
        RawTable::with_capacity(bytes, isize::MAX as usize + 1),
        Err(TableError::CapacityOverflow)
    ));
}

#[test]
fn reserve_with_room_changes_nothing() {
    let mut table = RawTable::with_capacity(data_columns(), 64).unwrap();
    let before = [table.ptr(0), table.ptr(1), table.ptr(2)];
    put(&mut table, 1, 9, &[1, 2, 3, 4]);
    assert_eq!(table.reserve_exact(10, 54), Ok(()));
    assert_eq!(table.reserve_exact(64, 0), Ok(()));
    assert_eq!(table.reserve_exact(0, 0), Ok(()));
    assert_eq!(table.capacity(), 64);
    assert_eq!([table.ptr(0), table.ptr(1), table.ptr(2)], before);
    assert_eq!(get(&table, 1, 9, 4), vec![1, 2, 3, 4]);
}

#[test]
fn reserve_grows_to_exactly_what_is_asked() {
    let mut table = RawTable::with_capacity(data_columns(), 64).unwrap();
    assert_eq!(table.reserve_exact(10, 55), Ok(()));
    assert_eq!(table.capacity(), 65);
    assert_eq!(table.allocated_size(), 72 + 264 + 520);
    assert_eq!(table.ptr(1), table.ptr(0) + 72);
    assert_eq!(table.ptr(2), table.ptr(0) + 72 + 264);
    let mut empty = RawTable::new(data_columns());
    assert_eq!(empty.reserve_exact(0, 1), Ok(()));
    assert_eq!(empty.capacity(), 1);
    assert_eq!(empty.allocated_size(), 8 + 8 + 8);
}

#[test]
fn reserve_keeps_the_elements_in_use() {
    let mut table = RawTable::with_capacity(data_columns(), 4).unwrap();
    for i in 0..4u8 {
        put(&mut table, 0, i as usize, &[i + 1]);
        put(&mut table, 1, i as usize, &[i, i, i, 0x40 + i]);
        put(&mut table, 2, i as usize, &[0x80 + i; 8]);
    }
    assert_eq!(table.reserve_exact(3, 100), Ok(()));
    assert_eq!(table.capacity(), 103);
    for i in 0..3u8 {
        assert_eq!(get(&table, 0, i as usize, 1), vec![i + 1]);
        assert_eq!(get(&table, 1, i as usize, 4), vec![i, i, i, 0x40 + i]);
        assert_eq!(get(&table, 2, i as usize, 8), vec![0x80 + i; 8]);
    }
}

#[test]
fn reserve_of_a_giant_capacity_overflows_and_changes_nothing() {
    let mut table = RawTable::with_capacity(data_columns(), 4).unwrap();
    let before = [table.ptr(0), table.ptr(1), table.ptr(2)];
    put(&mut table, 2, 3, &[7; 8]);
    assert_eq!(table.reserve_exact(4, usize::MAX), Err(TableError::CapacityOverflow));
    assert_eq!(table.reserve_exact(4, usize::MAX - 4), Err(TableError::CapacityOverflow));
    assert_eq!(table.reserve_exact(1, usize::MAX / 13), Err(TableError::CapacityOverflow));
    assert_eq!(table.capacity(), 4);
    assert_eq!([table.ptr(0), table.ptr(1), table.ptr(2)], before);
    assert_eq!(get(&table, 2, 3, 8), vec![7; 8]);
}

#[test]
fn access_outside_an_array_is_refused() {
    let mut table = RawTable::with_capacity(data_columns(), 2).unwrap();
    assert!(table.write(0, 1, 5));
    assert!(!table.write(0, 2, 5));
    assert!(table.write(1, 7, 5));
    assert!(!table.write(1, 8, 5));
    assert!(table.write(2, 15, 5));
    assert!(!table.write(2, 16, 5));
    assert!(!table.write(3, 0, 5));
    assert_eq!(table.read(0, 1), Some(5));
    assert_eq!(table.read(0, 2), None);
    assert_eq!(table.read(3, 0), None);
}

#[test]
fn write_shows_in_its_array_only() {
    let mut table = RawTable::with_capacity(data_columns(), 2).unwrap();
    for field in 0..3 {
        let size = data_columns().field(field).size;
        for k in 0..2 * size {
            assert!(table.write(field, k, (field * 16 + k) as u8));
        }
    }
    assert!(table.write(1, 0, 0xee));
    assert_eq!(table.read(0, 1), Some(1));
    assert_eq!(table.read(1, 0), Some(0xee));
    assert_eq!(table.read(1, 1), Some(17));
    assert_eq!(table.read(2, 0), Some(32));
    assert_eq!(table.read(2, 15), Some(47));
}
