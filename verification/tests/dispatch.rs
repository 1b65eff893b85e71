use shred::access::AccessSet;
use shred::dispatch::{BuildError, DispatcherBuilder};
use shred::res::{ResourceId, Resources};
use shred::system::{AddSystem, CopySystem, InertSystem, System};

const A: u64 = 1;
const B: u64 = 2;

fn reader(of: u64) -> InertSystem {
    let mut a = AccessSet::new();
    a.add_read(ResourceId::new(of));
    InertSystem::new(a)
}

fn writer(of: u64) -> InertSystem {
    let mut a = AccessSet::new();
    a.add_write(ResourceId::new(of));
    InertSystem::new(a)
}

#[test]
fn reader_and_writer_of_one_kind_get_different_stages() {
    let d = DispatcherBuilder::<u64, InertSystem>::new()
        .with(reader(A), "read_a", &[])
        .with(writer(A), "write_a", &[])
        .build()
        .unwrap();
    assert_ne!(d.stage_of_system(0), d.stage_of_system(1));
}

#[test]
fn disjoint_writers_share_a_stage() {
    let d = DispatcherBuilder::<u64, InertSystem>::new()
        .with(writer(A), "write_a", &[])
        .with(writer(B), "write_b", &[])
        .build()
        .unwrap();
    assert_eq!(d.stage_of_system(0), d.stage_of_system(1));
    assert_eq!(d.num_stages(), 1);
}

#[test]
fn explicit_edge_forces_a_later_stage_for_disjoint_systems() {
    let d = DispatcherBuilder::<u64, InertSystem>::new()
        .with(writer(A), "a", &[])
        .with(writer(B), "b", &["a"])
        .build()
        .unwrap();
    assert_ne!(d.stage_of_system(0), d.stage_of_system(1));
    assert!(d.stage_of_system(1) > d.stage_of_system(0));
}

#[test]
fn cycle_of_edges_fails_the_build() {
    let r = DispatcherBuilder::<u64, InertSystem>::new()
        .with(writer(A), "a", &["c"])
        .with(writer(B), "b", &["a"])
        .with(reader(A), "c", &["b"])
        .build();
    assert!(matches!(r, Err(BuildError::CycleDetected)));
}

#[test]
fn duplicate_names_fail_the_build() {
    let r = DispatcherBuilder::<u64, InertSystem>::new()
        .with(writer(A), "same", &[])
        .with(writer(B), "same", &[])
        .build();
    assert!(matches!(r, Err(BuildError::DuplicateName(_))));
}

#[test]
fn unknown_dependency_fails_the_build() {
    let r = DispatcherBuilder::<u64, InertSystem>::new()
        .with(writer(A), "a", &["nobody"])
        .build();
    match r {
        Err(BuildError::UnknownDependency(nm)) => assert_eq!(nm, "nobody"),
        _ => panic!("expected an unknown-dependency error"),
    }
}

#[test]
fn dynamic_accessor_occupies_a_stage_alone() {
    let d = DispatcherBuilder::<u64, InertSystem>::new()
        .with(writer(A), "write_a", &[])
        .with(InertSystem::new(AccessSet::new_dynamic()), "dynamic", &[])
        .with(writer(B), "write_b", &[])
        .build()
        .unwrap();
    let s = d.stage_of_system(1);
    assert_eq!(d.stage_len(s), 1);
    // the two disjoint writers still share their stage
    assert_eq!(d.stage_of_system(0), d.stage_of_system(2));
}

#[test]
fn dispatch_and_dispatch_seq_leave_identical_stores() {
    let x = ResourceId::new(10);
    let y = ResourceId::new(11);

    let build = || {
        DispatcherBuilder::<u64, AddSystem>::new()
            .with(AddSystem::new(x, 5), "add_x", &[])
            .with(AddSystem::new(y, 7), "add_y", &[])
            .with(AddSystem::new(x, 100), "add_x_again", &["add_x"])
            .build()
            .unwrap()
    };

    let mut d1 = build();
    let mut d2 = build();
    let mut r1: Resources<u64> = Resources::new();
    let mut r2: Resources<u64> = Resources::new();
    r1.insert(x, 1);
    r1.insert(y, 2);
    r2.insert(x, 1);
    r2.insert(y, 2);

    d1.dispatch(&mut r1);
    d2.dispatch_seq(&mut r2);

    assert_eq!(r1.fetch_expect(x), r2.fetch_expect(x));
    assert_eq!(r1.fetch_expect(y), r2.fetch_expect(y));
    assert_eq!(r1.fetch_expect(x), Ok(&106));
    assert_eq!(r1.fetch_expect(y), Ok(&9));
}

#[test]
fn setup_provisions_absent_counters_once() {
    let x = ResourceId::new(20);
    let d = DispatcherBuilder::<u64, AddSystem>::new()
        .with(AddSystem::new(x, 3), "add_x", &[])
        .build()
        .unwrap();
    let mut res: Resources<u64> = Resources::new();
    d.setup(&mut res);
    assert_eq!(res.fetch_expect(x), Ok(&0));
}

#[test]
fn adding_saturates_at_the_largest_value() {
    let x = ResourceId::new(21);
    let mut d = DispatcherBuilder::<u64, AddSystem>::new()
        .with(AddSystem::new(x, 5), "add_x", &[])
        .build()
        .unwrap();
    let mut res: Resources<u64> = Resources::new();
    res.insert(x, u64::MAX - 2);
    d.dispatch(&mut res);
    assert_eq!(res.fetch_expect(x), Ok(&u64::MAX));
}

#[test]
fn copy_system_reads_one_kind_and_writes_another() {
    let from = ResourceId::new(30);
    let to = ResourceId::new(31);
    let mut d = DispatcherBuilder::<u64, CopySystem>::new()
        .with(CopySystem::new(from, to), "copy", &[])
        .build()
        .unwrap();
    let mut res: Resources<u64> = Resources::new();
    res.insert(from, 77);
    res.insert(to, 0);
    d.dispatch_seq(&mut res);
    assert_eq!(res.fetch_expect(to), Ok(&77));
    let a = <CopySystem as System<u64>>::access(&CopySystem::new(from, to));
    assert!(!a.dynamic);
}
