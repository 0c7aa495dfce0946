use zap_heap::constants::{BLOCK_CAPACITY, MAX_ALLOC_SIZE};
use zap_heap::{
    add_alignment_padding, AllocError, AllocHeader, AllocObject, AllocTypeId, ArraySize, Handle,
    HeaderRequest, Mark, Place, SizeClass, ZapHeap,
};

use std::mem::size_of;

struct SmallTestObj {
    #[allow(dead_code)]
    data: u32,
}

struct MediumTestObj {
    #[allow(dead_code)]
    data: [u8; 256],
}

struct LargeTestObj {
    #[allow(dead_code)]
    data: [u8; 9000],
}

#[derive(PartialEq, Copy, Clone, Debug)]
#[allow(dead_code)]
enum TestTypeId {
    Small,
    Medium,
    Large,
    Array,
}

impl AllocTypeId for TestTypeId {}

impl AllocObject<TestTypeId> for MediumTestObj {
    const TYPE_ID: TestTypeId = TestTypeId::Medium;
}

impl AllocObject<TestTypeId> for SmallTestObj {
    const TYPE_ID: TestTypeId = TestTypeId::Small;
}

impl AllocObject<TestTypeId> for LargeTestObj {
    const TYPE_ID: TestTypeId = TestTypeId::Large;
}

#[allow(dead_code)]
struct TestHeader {
    mark: Mark,
    type_id: TestTypeId,
    size: u32,
    size_class: SizeClass,
}

impl AllocHeader for TestHeader {
    type TypeId = TestTypeId;

    fn new<O: AllocObject<Self::TypeId>>(size: u32, size_class: SizeClass, mark: Mark) -> Self {
        TestHeader { type_id: O::TYPE_ID, mark, size, size_class }
    }

    fn new_array(size: ArraySize, size_class: SizeClass, mark: Mark) -> Self {
        TestHeader { type_id: TestTypeId::Array, mark, size, size_class }
    }

    fn mark(&mut self) {
        self.mark = Mark::Marked;
    }

    fn is_marked(&self) -> bool {
        self.mark == Mark::Marked
    }

    fn type_id(&self) -> Self::TypeId {
        self.type_id
    }

    fn size(&self) -> u32 {
        self.size
    }

    fn size_class(&self) -> SizeClass {
        self.size_class
    }
}

fn alloc_size<T>() -> usize {
    let header_size = size_of::<TestHeader>();
    let header_alloc_size = add_alignment_padding(header_size);
    let object_size = size_of::<T>();
    let total_size = header_alloc_size + object_size;
    add_alignment_padding(total_size)
}

type Heap = ZapHeap<TestHeader>;

fn round_trips(p: Handle) -> bool {
    Heap::get_object(Heap::get_header(p)) == p
}

#[test]
fn test_alloc_small_obj() {
    let mut heap = Heap::new();
    let ptr = heap.alloc_object(SmallTestObj { data: 333 });
    let alloc_size = alloc_size::<SmallTestObj>();

    assert!(round_trips(ptr.unwrap()));
    let blocks = heap.blocks();
    assert!(blocks.block_count() == 1);
    assert!(blocks.head.is_some());
    assert!(blocks.head.as_ref().unwrap().current_hole_size() == BLOCK_CAPACITY - alloc_size);
}

#[test]
fn test_alloc_many_small_obj() {
    let mut heap = Heap::new();
    let alloc_size = alloc_size::<SmallTestObj>();

    for _ in 0..(BLOCK_CAPACITY / alloc_size) {
        let ptr = heap.alloc_object(SmallTestObj { data: 333 });
        assert!(round_trips(ptr.unwrap()));
    }

    {
        let blocks = heap.blocks();
        assert!(blocks.block_count() == 1);
        assert!(blocks.head.is_some());
        assert!(blocks.used.len() == 0);
        assert!(
            blocks.head.as_ref().unwrap().current_hole_size() == (BLOCK_CAPACITY % alloc_size)
        );
    }

    let ptr = heap.alloc_object(SmallTestObj { data: 333 });
    assert!(round_trips(ptr.unwrap()));

    let blocks = heap.blocks();
    assert!(blocks.block_count() == 2);
    assert!(blocks.used.len() == 1);
    assert!(blocks.head.is_some());
    assert!(blocks.head.as_ref().unwrap().current_hole_size() == (BLOCK_CAPACITY - alloc_size));
}

#[test]
fn test_small_obj_header() {
    let mut heap = Heap::new();
    let small_obj = SmallTestObj { data: 333 };
    let raw_ptr = heap.alloc_object(small_obj).unwrap();
    let header_ptr = Heap::get_header(raw_ptr);
    let header: &TestHeader = heap.header(header_ptr).unwrap();

    assert!(header.type_id == TestTypeId::Small);
    assert!(header.size == size_of::<SmallTestObj>() as u32);
    assert!(header.size_class == SizeClass::Small);
    assert!(header.mark == Mark::Allocated);
}

#[test]
fn test_array_alloc() {
    let mut heap = Heap::new();
    let alloc_size = size_of::<MediumTestObj>() as u32;
    let raw_ptr = heap.alloc_array(alloc_size as u32).unwrap();
    let header_ptr = Heap::get_header(raw_ptr);
    let header = heap.header(header_ptr).unwrap();

    assert!(header.type_id == TestTypeId::Array);
    assert!(header.size_class == SizeClass::Medium);
    assert!(header.mark == Mark::Allocated);
    assert!(header.size == alloc_size);
}

#[test]
fn no_header_at_payload() {
    let mut heap = Heap::new();
    let p = heap.alloc_object(SmallTestObj { data: 1 }).unwrap();

    assert!(heap.header(p).is_none());
    assert!(heap.header(Heap::get_header(p)).is_some());
}

#[test]
fn blocks_get_distinct_ids() {
    let mut heap = Heap::new();
    let first = heap.alloc_array(8000).unwrap();
    let second = heap.alloc_array(8000).unwrap();
    let third = heap.alloc_array(8000).unwrap();

    assert_eq!(first.block, second.block);
    assert_ne!(second.block, third.block);
    assert_eq!(heap.header(Heap::get_header(third)).unwrap().size, 8000);
}

#[test]
fn test_get_object() {
    let mut heap = Heap::new();
    let raw_ptr = heap.alloc_object(SmallTestObj { data: 333 }).unwrap();
    let header_ptr = Heap::get_header(raw_ptr);
    let obj_ptr = Heap::get_object(header_ptr);

    assert!(obj_ptr == raw_ptr);
}

#[test]
fn test_alloc_medium_object() {
    let mut heap = Heap::new();
    let raw_ptr = heap.alloc_object(MediumTestObj { data: [9; 256] }).unwrap();
    let header_ptr = Heap::get_header(raw_ptr);
    let obj_ptr = Heap::get_object(header_ptr);

    assert!(obj_ptr == raw_ptr);
}

#[test]
fn test_over_flow_alloc() {
    let mut heap = Heap::new();
    let alloc_size = alloc_size::<MediumTestObj>();

    for _ in 0..(BLOCK_CAPACITY / alloc_size) {
        let raw_ptr = heap.alloc_object(MediumTestObj { data: [9; 256] }).unwrap();
        assert!(round_trips(raw_ptr));
    }

    {
        let blocks = heap.blocks();
        assert!(blocks.block_count() == 1);
        assert!(blocks.head.is_some());
        assert!(blocks.recycle.len() == 0);
        assert!(
            blocks.head.as_ref().unwrap().current_hole_size() == (BLOCK_CAPACITY % alloc_size)
        );
    }

    let raw_ptr = heap.alloc_object(MediumTestObj { data: [9; 256] }).unwrap();
    assert!(round_trips(raw_ptr));

    let blocks = heap.blocks();
    assert!(blocks.block_count() == 2);
    assert!(blocks.overflow.is_some());
    assert!(blocks.head.is_some());
    assert!(
        blocks.overflow.as_ref().unwrap().current_hole_size() == (BLOCK_CAPACITY - alloc_size)
    );
}

#[test]
fn test_use_recycling() {
    let mut heap = Heap::new();
    let alloc_size = alloc_size::<MediumTestObj>();

    for _ in 0..(BLOCK_CAPACITY / alloc_size) {
        let raw_ptr = heap.alloc_object(MediumTestObj { data: [9; 256] }).unwrap();
        assert!(round_trips(raw_ptr));
    }

    {
        let blocks = heap.blocks();
        assert!(blocks.block_count() == 1);
        assert!(blocks.head.is_some());
        assert!(blocks.recycle.len() == 0);
        assert!(
            blocks.head.as_ref().unwrap().current_hole_size() == (BLOCK_CAPACITY % alloc_size)
        );
    }

    for _ in 0..(BLOCK_CAPACITY / alloc_size) {
        let raw_ptr = heap.alloc_object(MediumTestObj { data: [9; 256] }).unwrap();
        assert!(round_trips(raw_ptr));
    }

    {
        let blocks = heap.blocks();
        assert!(blocks.block_count() == 2);
        assert!(blocks.overflow.is_some());
        assert!(blocks.head.is_some());
        assert!(
            blocks.overflow.as_ref().unwrap().current_hole_size()
                == (BLOCK_CAPACITY % alloc_size)
        );
    }

    let raw_ptr = heap.alloc_object(MediumTestObj { data: [9; 256] }).unwrap();
    assert!(round_trips(raw_ptr));

    let blocks = heap.blocks();
    assert!(blocks.block_count() == 3);
    assert!(blocks.overflow.is_some());
    assert!(blocks.recycle.len() == 1);
    assert!(blocks.head.is_some());
    assert!(
        blocks.overflow.as_ref().unwrap().current_hole_size() == (BLOCK_CAPACITY - alloc_size)
    );
}

#[test]
fn array_payload_is_zeroed() {
    let mut heap = Heap::new();
    let n: u32 = size_of::<MediumTestObj>() as u32;
    let p = heap.alloc_array(n).unwrap();

    assert_eq!(p.offset % 8, 0);
    assert!(round_trips(p));
    let head = heap.blocks().head.as_ref().unwrap();
    assert_eq!(head.id(), p.block);
    for i in p.offset..p.offset + n as usize {
        assert_eq!(head.read(i), 0);
    }
    assert!(p.offset + n as usize <= BLOCK_CAPACITY);
}

#[test]
fn zero_sized_array_still_takes_a_header() {
    let mut heap = Heap::new();
    let p = heap.alloc_array(0).unwrap();

    assert_eq!(p.offset, BLOCK_CAPACITY);
    assert_eq!(heap.blocks().block_count(), 1);
}

#[test]
fn large_array_is_bad_request() {
    let mut heap = Heap::new();

    assert_eq!(heap.alloc_array(9000), Err(AllocError::BadRequest));
    assert_eq!(heap.blocks().block_count(), 0);
}

#[test]
fn largest_medium_array_fits() {
    let mut heap = Heap::new();
    let header = add_alignment_padding(size_of::<TestHeader>());
    let n = (8192 - header) as u32;

    let p = heap.alloc_array(n).unwrap();
    assert_eq!(p.offset, BLOCK_CAPACITY - 8192 + header);
    assert_eq!(heap.alloc_array(n + 1), Err(AllocError::BadRequest));
}

#[test]
fn large_object_is_bad_request() {
    let mut heap = Heap::new();

    assert_eq!(heap.alloc_object(LargeTestObj { data: [0; 9000] }), Err(AllocError::BadRequest));
    assert_eq!(heap.blocks().block_count(), 0);
}

#[test]
fn medium_then_small_stays_in_head() {
    let mut heap = Heap::default();
    let medium = alloc_size::<MediumTestObj>();
    let small = alloc_size::<SmallTestObj>();

    heap.alloc_object(MediumTestObj { data: [1; 256] }).unwrap();
    heap.alloc_object(SmallTestObj { data: 1 }).unwrap();

    let blocks = heap.blocks();
    assert_eq!(blocks.block_count(), 1);
    assert_eq!(
        blocks.head.as_ref().unwrap().current_hole_size(),
        BLOCK_CAPACITY - medium - small
    );
}

#[test]
fn size_classes() {
    assert_eq!(SizeClass::get_for_size(0), Err(AllocError::BadRequest));
    assert_eq!(SizeClass::get_for_size(1), Ok(SizeClass::Small));
    assert_eq!(SizeClass::get_for_size(128), Ok(SizeClass::Small));
    assert_eq!(SizeClass::get_for_size(129), Ok(SizeClass::Medium));
    assert_eq!(SizeClass::get_for_size(8192), Ok(SizeClass::Medium));
    assert_eq!(SizeClass::get_for_size(8193), Ok(SizeClass::Large));
    assert_eq!(SizeClass::get_for_size(MAX_ALLOC_SIZE), Ok(SizeClass::Large));
    assert_eq!(SizeClass::get_for_size(MAX_ALLOC_SIZE + 1), Err(AllocError::BadRequest));
}

#[test]
fn alignment_padding() {
    assert_eq!(add_alignment_padding(0), 0);
    assert_eq!(add_alignment_padding(1), 8);
    assert_eq!(add_alignment_padding(8), 8);
    assert_eq!(add_alignment_padding(12), 16);
    assert_eq!(add_alignment_padding(264), 264);
}

#[test]
fn find_space_refuses_large() {
    let mut heap = Heap::new();

    assert_eq!(heap.find_space(9000, SizeClass::Large), Err(AllocError::BadRequest));
    assert_eq!(heap.blocks().block_count(), 0);
}

#[test]
fn header_sits_before_payload() {
    let header = add_alignment_padding(size_of::<TestHeader>());

    let at = Handle { block: 3, offset: 100 };

    assert_eq!(Heap::get_header(at), Handle { block: 3, offset: 100 - header });
    assert_eq!(Heap::get_object(at), Handle { block: 3, offset: 100 + header });
}

#[test]
fn header_constructors() {
    let h = TestHeader::new::<SmallTestObj>(4, SizeClass::Small, Mark::Allocated);
    assert_eq!(h.type_id(), TestTypeId::Small);
    let mut a = TestHeader::new_array(9, SizeClass::Small, Mark::Allocated);
    a.mark();
    assert!(a.is_marked());
    assert_eq!(a.size(), 9);
    assert_eq!(a.size_class(), SizeClass::Small);
}

#[test]
fn find_space_refuses_large_class_of_any_size() {
    let mut heap = Heap::new();

    assert_eq!(heap.find_space(100, SizeClass::Large), Err(AllocError::BadRequest));
    assert_eq!(heap.blocks().block_count(), 0);
}

#[test]
fn header_requests_are_recorded() {
    let mut heap = Heap::new();
    let obj = heap.alloc_object(SmallTestObj { data: 5 }).unwrap();
    let arr = heap.alloc_array(300).unwrap();

    assert_eq!(
        heap.header_request(Heap::get_header(obj)),
        Some(HeaderRequest {
            at: Heap::get_header(obj),
            size: size_of::<SmallTestObj>() as u32,
            size_class: SizeClass::Small,
            mark: Mark::Allocated,
            array: false,
        })
    );
    assert_eq!(
        heap.header_request(Heap::get_header(arr)),
        Some(HeaderRequest {
            at: Heap::get_header(arr),
            size: 300,
            size_class: SizeClass::Medium,
            mark: Mark::Allocated,
            array: true,
        })
    );
    assert_eq!(heap.header_request(obj), None);
}

#[test]
fn find_space_takes_any_size_up_to_capacity() {
    let mut heap = Heap::new();

    assert_eq!(heap.find_space(1000, SizeClass::Small), Ok((Place::Head, BLOCK_CAPACITY - 1000)));
    assert_eq!(heap.blocks().block_count(), 1);
}

#[test]
fn small_medium_request_beyond_hole_goes_to_overflow() {
    let mut heap = Heap::new();

    assert_eq!(heap.find_space(16200, SizeClass::Small), Ok((Place::Head, 56)));
    assert_eq!(heap.find_space(100, SizeClass::Medium), Ok((Place::Overflow, BLOCK_CAPACITY - 104)));
    let blocks = heap.blocks();
    assert_eq!(blocks.block_count(), 2);
    assert_eq!(blocks.head.as_ref().unwrap().current_hole_size(), 56);
}
