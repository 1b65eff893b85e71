use shred::meta::{assert_unsized, CastFrom, MetaTable};
use shred::res::{ResourceId, Resources};

#[derive(Clone, Copy, PartialEq, Eq, Debug)]
enum Op {
    AddOp,
    MulOp,
}

struct ObjectView {
    op: Op,
    val: i32,
}

impl ObjectView {
    fn method1(&self) -> i32 {
        self.val
    }

    fn method2(&mut self, x: i32) {
        match self.op {
            Op::AddOp => self.val += x,
            Op::MulOp => self.val *= x,
        }
    }
}

enum Res {
    A(ObjectView),
    B(ObjectView),
    C(ObjectView),
    D(ObjectView),
}

impl CastFrom<Res> for ObjectView {
    fn cast(t: &Res) -> &ObjectView {
        match t {
            Res::A(v) | Res::B(v) | Res::C(v) | Res::D(v) => v,
        }
    }

    fn cast_mut(t: &mut Res) -> &mut ObjectView {
        match t {
            Res::A(v) | Res::B(v) | Res::C(v) | Res::D(v) => v,
        }
    }
}

#[test]
fn test_iter_all() {
    let mut res: Resources<Res> = Resources::new();
    let id_a = ResourceId::new(1);
    let id_b = ResourceId::new(2);

    res.insert(id_a, Res::A(ObjectView { op: Op::AddOp, val: 3 }));
    res.insert(id_b, Res::B(ObjectView { op: Op::MulOp, val: 1 }));

    let mut table = MetaTable::<ObjectView>::new();
    table.register(id_a);
    table.register(id_b);

    {
        let mut iter = table.iter();
        assert_eq!(iter.next(&res).unwrap().method1(), 3);
        assert_eq!(iter.next(&res).unwrap().method1(), 1);
        assert!(iter.next(&res).is_none());
    }

    {
        let mut iter_mut = table.iter_mut();
        let obj = iter_mut.next(&mut res).unwrap();
        obj.method2(3);
        assert_eq!(obj.method1(), 6);
        let obj = iter_mut.next(&mut res).unwrap();
        obj.method2(4);
        assert_eq!(obj.method1(), 4);
        assert!(iter_mut.next(&mut res).is_none());
    }
}

#[test]
fn get() {
    let mut res: Resources<Res> = Resources::new();
    let id_c = ResourceId::new(3);
    let id_d = ResourceId::new(4);

    res.insert(id_c, Res::C(ObjectView { op: Op::AddOp, val: 33 }));
    res.insert(id_d, Res::D(ObjectView { op: Op::AddOp, val: 42 }));

    let mut table = MetaTable::<ObjectView>::new();
    table.register(id_c);
    table.register(id_d);

    assert_eq!(
        table.get(id_c, res.fetch_expect(id_c).unwrap()).unwrap().method1(),
        33
    );
    assert_eq!(
        table.get(id_d, res.fetch_expect(id_d).unwrap()).unwrap().method1(),
        42
    );
}

#[test]
fn get_unregistered_is_none() {
    let mut res: Resources<Res> = Resources::new();
    let id_c = ResourceId::new(3);
    res.insert(id_c, Res::C(ObjectView { op: Op::AddOp, val: 9 }));

    let table = MetaTable::<ObjectView>::new();
    assert!(table.get(id_c, res.fetch_expect(id_c).unwrap()).is_none());
    assert!(!table.registered(id_c));
}

#[test]
fn get_mut_changes_the_stored_value() {
    let mut res: Resources<Res> = Resources::new();
    let id_a = ResourceId::new(1);
    res.insert(id_a, Res::A(ObjectView { op: Op::AddOp, val: 10 }));

    let mut table = MetaTable::<ObjectView>::new();
    table.register(id_a);

    {
        let slot = res.get_mut(id_a).unwrap();
        let view = table.get_mut(id_a, slot).unwrap();
        view.method2(5);
    }
    assert_eq!(
        table.get(id_a, res.fetch_expect(id_a).unwrap()).unwrap().method1(),
        15
    );
}

#[test]
fn iter_three_registered_in_order_then_remove_one() {
    let mut res: Resources<Res> = Resources::new();
    let id_a = ResourceId::new(1);
    let id_b = ResourceId::new(2);
    let id_c = ResourceId::new(3);

    res.insert(id_a, Res::A(ObjectView { op: Op::AddOp, val: 100 }));
    res.insert(id_b, Res::B(ObjectView { op: Op::AddOp, val: 200 }));
    res.insert(id_c, Res::C(ObjectView { op: Op::AddOp, val: 300 }));

    let mut table = MetaTable::<ObjectView>::new();
    table.register(id_a);
    table.register(id_b);
    table.register(id_c);
    // a second registration of the same kind changes nothing
    table.register(id_b);

    let mut seen = Vec::new();
    let mut iter = table.iter();
    while let Some(v) = iter.next(&res) {
        seen.push(v.method1());
    }
    assert_eq!(seen, vec![100, 200, 300]);

    assert!(res.remove(id_b).is_some());

    let mut seen = Vec::new();
    let mut iter = table.iter();
    while let Some(v) = iter.next(&res) {
        seen.push(v.method1());
    }
    assert_eq!(seen, vec![100, 300]);
}

#[test]
fn view_references_are_narrow() {
    assert!(!assert_unsized::<ObjectView>());
    assert!(assert_unsized::<dyn std::fmt::Debug>());
}
