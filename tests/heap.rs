use mem_manager::heap::{Heap, HeapRef, ManagedValue, Value};
use mem_manager::value::{Array, Kind, Number, Payload};

fn num(x: f64) -> Number {
    Number::from_bits(x.to_bits())
}

fn float(n: &Number) -> f64 {
    f64::from_bits(n.to_bits())
}

#[test]
fn it_allocates() {
    // create a heap instance
    let mut heap = Heap::new();

    // allocate something
    let value = heap.allocate(String::from("I'm a string"));

    // use the value
    assert_eq!(String::from("I'm a string"), *value.dereference(&heap).unwrap());
}

#[test]
fn it_upcasts() {
    let mut heap = Heap::new();

    let value = heap.allocate(String::from("hello"));
    let upcast: ManagedValue = value.into();
    assert_eq!(upcast.kind(), Kind::Text);
}

#[test]
fn it_downcasts() {
    let mut heap = Heap::new();

    let value: ManagedValue = heap.allocate(num(10.0)).into();

    assert_eq!(10.0, float(value.downcast::<Number>().unwrap().dereference(&heap).unwrap()))
}

#[test]
fn mutable_casts() {
    let mut heap = Heap::new();

    let value = heap.allocate(num(10.0));
    let managed: ManagedValue = value.into();

    assert!(value.assign(&mut heap, num(11.0)).is_ok());

    assert_eq!(11.0, float(value.dereference(&heap).unwrap()));
    assert_eq!(11.0, float(managed.downcast::<Number>().unwrap().dereference(&heap).unwrap()));
}

#[test]
fn rooted_string_survives_until_unregistered() {
    let mut heap = Heap::new();
    let a = heap.allocate(String::from("a"));
    let root = heap.register_root(a.erase());
    heap.collect();
    assert_eq!("a", a.dereference(&heap).unwrap().as_str());
    heap.unregister_root(root);
    heap.collect();
    assert!(a.dereference(&heap).is_none());
}

#[test]
fn array_keeps_its_elements_alive() {
    let mut heap = Heap::new();
    let one = heap.allocate(num(1.0));
    let two = heap.allocate(num(2.0));
    let elements: Array = vec![one.erase(), two.erase()];
    let array = heap.allocate(elements);
    let root = heap.register_root(array.erase());
    heap.collect();
    assert_eq!(1.0, float(one.dereference(&heap).unwrap()));
    assert_eq!(2.0, float(two.dereference(&heap).unwrap()));
    assert_eq!(2, array.dereference(&heap).unwrap().len());
    heap.unregister_root(root);
    heap.collect();
    assert!(one.dereference(&heap).is_none());
    assert!(two.dereference(&heap).is_none());
    assert!(array.dereference(&heap).is_none());
}

#[test]
fn self_referencing_array_is_retained_alone() {
    let mut heap = Heap::new();
    let other = heap.allocate(String::from("unrooted"));
    let a = heap.allocate(Array::new());
    assert!(a.assign(&mut heap, vec![a.erase()]).is_ok());
    heap.register_root(a.erase());
    heap.collect();
    let held = a.dereference(&heap).unwrap();
    assert_eq!(1, held.len());
    assert_eq!(a.erase(), held[0]);
    assert!(other.dereference(&heap).is_none());
}

#[test]
fn unrooted_cycle_is_reclaimed() {
    let mut heap = Heap::new();
    let a = heap.allocate(Array::new());
    let b = heap.allocate(vec![a.erase()]);
    assert!(a.assign(&mut heap, vec![b.erase()]).is_ok());
    let root = heap.register_root(a.erase());
    heap.collect();
    assert!(a.dereference(&heap).is_some());
    assert!(b.dereference(&heap).is_some());
    heap.unregister_root(root);
    heap.collect();
    assert!(a.dereference(&heap).is_none());
    assert!(b.dereference(&heap).is_none());
}

#[test]
fn collecting_twice_keeps_the_same_blocks() {
    let mut heap = Heap::new();
    let kept = heap.allocate(String::from("kept"));
    let lost = heap.allocate(num(3.5));
    heap.register_root(kept.erase());
    heap.collect();
    assert!(kept.dereference(&heap).is_some());
    assert!(lost.dereference(&heap).is_none());
    heap.collect();
    assert_eq!("kept", kept.dereference(&heap).unwrap().as_str());
    assert!(lost.dereference(&heap).is_none());
}

#[test]
fn erase_then_downcast_addresses_same_block() {
    let mut heap = Heap::new();
    let s = heap.allocate(String::from("x"));
    let back: HeapRef<String> = s.erase().downcast::<String>().unwrap();
    assert!(back.assign(&mut heap, String::from("y")).is_ok());
    assert_eq!("y", s.dereference(&heap).unwrap().as_str());
}

#[test]
fn downcast_to_wrong_type_returns_the_handle() {
    let mut heap = Heap::new();
    let array = heap.allocate(Array::new());
    let m = array.erase();
    let failed = m.downcast::<String>();
    assert!(failed.is_err());
    let same = failed.err().unwrap();
    assert_eq!(m, same);
    assert!(same.downcast::<Number>().is_err());
    let recovered = same.downcast::<Array>().unwrap();
    assert_eq!(0, recovered.dereference(&heap).unwrap().len());
}

#[test]
fn unregistering_twice_is_harmless() {
    let mut heap = Heap::new();
    let s = heap.allocate(String::from("r"));
    let root = heap.register_root(s.erase());
    heap.unregister_root(root);
    heap.unregister_root(root);
    heap.collect();
    assert!(s.dereference(&heap).is_none());
}

#[test]
fn assign_to_swept_block_hands_value_back() {
    let mut heap = Heap::new();
    let s = heap.allocate(String::from("gone"));
    heap.collect();
    let r = s.assign(&mut heap, String::from("late"));
    assert_eq!(Err(String::from("late")), r);
}

#[test]
fn empty_heap_collects_nothing() {
    let mut heap = Heap::new();
    heap.collect();
    let n = heap.allocate(num(0.5));
    assert_eq!(0.5, float(n.dereference(&heap).unwrap()));
}

#[test]
fn same_value_compares_contents() {
    let mut heap = Heap::new();
    let a = heap.allocate(String::from("same"));
    let b = heap.allocate(String::from("same"));
    let c = heap.allocate(String::from("other"));
    assert_eq!(Some(true), a.same_value(&b, &heap));
    assert_eq!(Some(false), a.same_value(&c, &heap));
    heap.collect();
    assert_eq!(None, a.same_value(&b, &heap));
}

#[test]
fn classify_recovers_the_kind() {
    let mut heap = Heap::new();
    let n = heap.allocate(num(4.0));
    let s = heap.allocate(String::from("t"));
    let a = heap.allocate(Array::new());
    match n.erase().classify() {
        Value::Number(r) => assert_eq!(4.0, float(r.dereference(&heap).unwrap())),
        _ => panic!("expected a number"),
    }
    match s.erase().classify() {
        Value::String(r) => assert_eq!("t", r.dereference(&heap).unwrap().as_str()),
        _ => panic!("expected a string"),
    }
    let v = a.erase().classify();
    assert!(matches!(v, Value::Array(_)));
    assert_eq!(a.erase(), v.erase());
}

#[test]
fn payload_equality() {
    let x = Payload::Text(String::from("q"));
    let y = Payload::Text(String::from("q"));
    let z = Payload::Number(num(1.0));
    assert!(x.equals(&y));
    assert!(!x.equals(&z));
    assert_eq!(Kind::Number, z.kind());
    assert_eq!(num(1.0).to_bits(), 1.0f64.to_bits());
}
