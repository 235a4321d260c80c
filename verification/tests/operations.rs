use thread_safe_var::access::Access;
use thread_safe_var::protocol::Request;
use thread_safe_var::slot_pair::InnerSlotPairTSV;
use thread_safe_var::ThreadSafeVarRef;

#[test]
fn write_then_read() {
    let tsv = InnerSlotPairTSV::new("a");
    let mut access = Access::new(&tsv);
    assert_eq!("a", *access.read(None));
    assert_eq!(Ok(1), access.write(Request::Overwrite { data: "b" }));
    let reader = access.read(None);
    assert_eq!(("b", 1), (*reader, reader.version()));
}

#[test]
fn read_with_a_stale_value_at_hand() {
    let tsv = InnerSlotPairTSV::new("a");
    let stale = Access::new(&tsv).read(None);
    assert_eq!(Ok(1), Access::new(&tsv).write(Request::Overwrite { data: "b" }));
    let reader = Access::new(&tsv).read(Some(stale.clone()));
    assert_eq!(("b", 1), (*reader, reader.version()));
    assert_eq!(("a", 0), (*stale, stale.version()));
}

#[test]
fn two_ways_to_one_memory() {
    let tsv = InnerSlotPairTSV::new(1);
    let mut one = Access::new(&tsv);
    let mut other = Access::new(&tsv);
    let seen = one.read(None);
    assert_eq!(1, other.update(|x| x + 10));
    let request = Request::CompareAndSet { data: 2, expected: seen.version() };
    assert_eq!(Err((2, 1)), one.write(request));
    assert_eq!(2, one.update(|x| x + 100));
    assert_eq!(111, *other.read(None));
}
