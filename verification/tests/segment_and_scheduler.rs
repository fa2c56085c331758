use r_tpl::operation::OpType;
use r_tpl::operation_scheduler::OperationScheduler;
use r_tpl::segment::{Segment, Tuple};

#[test]
fn empty_tuple_renders_indices() {
    let t = Tuple::empty_tuple(&[1, 2, 3]);
    assert_eq!(t.tuple_id, "1,2,3");
    assert_eq!(t.index, vec![1, 2, 3]);
    assert!(t.values.is_empty());

    let neg = Tuple::empty_tuple(&[-5, 0]);
    assert_eq!(neg.tuple_id, "-5,0");

    let empty = Tuple::empty_tuple(&[]);
    assert_eq!(empty.tuple_id, "");
}

#[test]
fn op_id_is_the_decimal_clock_reading() {
    assert_eq!(OperationScheduler::op_id(0), "0");
    assert_eq!(OperationScheduler::op_id(12345), "12345");
    assert_eq!(
        OperationScheduler::op_id(1_700_000_000_000_000_000),
        "1700000000000000000"
    );
}

#[test]
fn rand_index_shape() {
    for _ in 0..50 {
        let v = OperationScheduler::rand_index(100);
        assert_eq!(v.len(), 4);
        assert!(0 <= v[0] && v[0] < 100);
        let expect = |off: i32| {
            if v[0] + off > 100 {
                100 % (v[0] + off)
            } else {
                v[0] + off
            }
        };
        assert_eq!(v[1], expect(1));
        assert_eq!(v[2], expect(2));
        assert!(1 <= v[3] && v[3] < 100);
    }
}

#[test]
fn new_operation_builds_a_read_write_pair() {
    let (read_op, write_op) =
        OperationScheduler::new_operation(50, ("r1".to_string(), "w1".to_string()));
    assert_eq!(read_op.id, "r1");
    assert_eq!(read_op.op_type, OpType::Read);
    assert_eq!(read_op.resources.split(',').count(), 3);
    assert_eq!(write_op.id, "w1");
    assert_eq!(write_op.op_type, OpType::Write);
    // the write tuple is addressed by the draw's length less one
    assert_eq!(write_op.resources, "3");
}

#[test]
fn from_ints_tiles_the_data() {
    let seg = Segment::from_ints(2, &[10, 20, 30, 40, 50], "s".to_string());
    assert_eq!(seg.capacity(), 5);
    let chunks = seg.chunks();
    // the split stops one short of the data's length, so the last chunk
    // is the empty tail
    assert_eq!(chunks.len(), 3);
    assert_eq!(chunks[0].start(), 0);
    assert_eq!(chunks[0].end(), 2);
    assert_eq!(chunks[1].start(), 2);
    assert_eq!(chunks[1].end(), 4);
    assert_eq!(chunks[2].start(), 4);
    assert_eq!(chunks[2].end(), 4);
}

#[test]
fn get_tuple_reads_through_the_chunks() {
    let seg = Segment::from_ints(2, &[10, 20, 30, 40, 50], "s".to_string());
    let t = seg.get_tuple(&[0, 1, 3]);
    assert_eq!(t.tuple_id, "0,1,3");
    assert_eq!(t.index, vec![0, 1, 3]);
    assert_eq!(t.values, vec![10, 20, 40]);
}

#[test]
fn get_chunk_picks_the_covering_chunk() {
    let seg = Segment::from_ints(2, &[10, 20, 30, 40, 50], "s".to_string());
    let c = seg.get_chunk(3).unwrap();
    assert_eq!(c.start(), 2);
    assert_eq!(c.end(), 4);
    assert_eq!(c.value_at(1), 40);
}

#[test]
fn update_value_writes_where_the_index_lookup_points() {
    let mut seg = Segment::from_ints(2, &[10, 20, 30, 40, 50], "s".to_string());
    // the lookup numbers the target chunk by the element index itself,
    // with the offset taken inside the covering chunk: updating index 1
    // therefore lands in chunk 1 at offset 1 — the value at element 3
    seg.update_value(1, 99);
    let t = seg.get_tuple(&[3]);
    assert_eq!(t.values, vec![99]);
}
