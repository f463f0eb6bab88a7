use netsim::games::NullGame;
use netsim::registry::Registry;
use netsim::sim::{Role, SimCore};
use netsim::tick::TickStrategy;

const PERIOD_NS: u64 = 10_000_000;

#[derive(Default)]
struct Link {
    to_client: Vec<Vec<u8>>,
    to_server: Vec<Vec<u8>>,
}

fn registry(n: u64) -> Registry {
    let mut reg = Registry::new();
    let mut t = 0u64;
    while t < n {
        reg.register(t);
        t += 1;
    }
    reg
}

fn create_server(n: u64) -> SimCore {
    SimCore::new(Role::Server, TickStrategy::Manual, PERIOD_NS, registry(n))
}

fn create_client(n: u64) -> SimCore {
    let mut client = SimCore::new(Role::Client, TickStrategy::Manual, PERIOD_NS, registry(n));
    client.connected = true;
    client
}

fn update_server(server: &mut SimCore, link: &mut Link) {
    let incoming = std::mem::take(&mut link.to_server);
    let mut out = server.update(&NullGame, 0, 0, &incoming).unwrap();
    link.to_client.append(&mut out);
}

fn update_client(client: &mut SimCore, link: &mut Link) {
    let incoming = std::mem::take(&mut link.to_client);
    let mut out = client.update(&NullGame, 0, 0, &incoming).unwrap();
    link.to_server.append(&mut out);
}

fn tick_server(server: &mut SimCore, link: &mut Link) {
    server.queue_do_tick();
    update_server(server, link);
}

fn tick_client(client: &mut SimCore, link: &mut Link) {
    client.queue_do_tick();
    update_client(client, link);
}

fn count(core: &SimCore, rep: usize) -> usize {
    core.world.count_with_component(rep)
}

fn count_both(core: &SimCore, rep_a: usize, rep_b: usize) -> usize {
    let with_a = core.world.ids_with_component(rep_a);
    let with_b = core.world.ids_with_component(rep_b);
    with_a.iter().filter(|id| with_b.contains(id)).count()
}

#[test]
fn basic_repl() {
    let mut server = create_server(1);
    let mut client = create_client(1);
    let mut link = Link::default();

    let marker = server.world.spawn(true, false);
    server.world.set_component(marker, 0, bincode::serialize(&()).unwrap());

    update_server(&mut server, &mut link);
    update_client(&mut client, &mut link);

    assert_eq!(count(&client, 0), 1);
}

#[test]
fn multiple_repl() {
    let mut server = create_server(2);
    let mut client = create_client(2);
    let mut link = Link::default();

    let e1 = server.world.spawn(true, false);
    server.world.set_component(e1, 0, bincode::serialize(&()).unwrap());
    let e2 = server.world.spawn(true, false);
    server.world.set_component(e2, 1, bincode::serialize(&()).unwrap());
    let e3 = server.world.spawn(true, false);
    server.world.set_component(e3, 1, bincode::serialize(&()).unwrap());
    let e4 = server.world.spawn(true, false);
    server.world.set_component(e4, 0, bincode::serialize(&()).unwrap());
    server.world.set_component(e4, 1, bincode::serialize(&()).unwrap());

    update_server(&mut server, &mut link);
    update_client(&mut client, &mut link);

    assert_eq!(count(&client, 0), 2);
    assert_eq!(count(&client, 1), 3);
    assert_eq!(count_both(&client, 0, 1), 1);
}

fn modified_same_entity_scenario() {
    let mut server = create_server(1);
    let mut client = create_client(1);
    let mut link = Link::default();

    let num = server.world.spawn(true, false);
    server.world.set_component(num, 0, bincode::serialize(&0u32).unwrap());

    tick_server(&mut server, &mut link);
    update_client(&mut client, &mut link);

    let with_num = client.world.ids_with_component(0);
    assert_eq!(with_num.len(), 1);
    let first_marked_entity = with_num[0];
    let bytes = client.world.component_bytes(first_marked_entity, 0).unwrap().clone();
    assert_eq!(bincode::deserialize::<u32>(&bytes).unwrap(), 0u32);

    server.world.set_component(num, 0, bincode::serialize(&1u32).unwrap());

    tick_server(&mut server, &mut link);
    update_client(&mut client, &mut link);

    let with_num = client.world.ids_with_component(0);
    assert_eq!(with_num.len(), 1);
    let second_marked_entity = with_num[0];
    let bytes = client.world.component_bytes(second_marked_entity, 0).unwrap().clone();
    assert_eq!(bincode::deserialize::<u32>(&bytes).unwrap(), 1u32);

    assert_eq!(first_marked_entity, second_marked_entity);
}

#[test]
fn modified_same_entity() {
    modified_same_entity_scenario();
}

#[test]
fn stress_100() {
    for _ in 0..100 {
        modified_same_entity_scenario();
    }
}

#[test]
fn replicate_transform() {
    let mut server = create_server(1);
    let mut client = create_client(1);
    let mut link = Link::default();

    let translation: (f32, f32, f32) = (1.0, 2.0, 3.0);
    let tf = server.world.spawn(true, false);
    server.world.set_component(tf, 0, bincode::serialize(&translation).unwrap());

    update_server(&mut server, &mut link);
    update_client(&mut client, &mut link);

    let with_tf = server.world.ids_with_component(0);
    assert_eq!(with_tf.len(), 1);
    let bytes = server.world.component_bytes(with_tf[0], 0).unwrap().clone();
    let got: (f32, f32, f32) = bincode::deserialize(&bytes).unwrap();
    assert_eq!((1.0, 2.0, 3.0), got);
}

#[test]
fn remove_component() {
    let mut server = create_server(1);
    let mut client = create_client(1);
    let mut link = Link::default();

    let marker = server.world.spawn(true, false);
    server.world.set_component(marker, 0, bincode::serialize(&()).unwrap());

    tick_server(&mut server, &mut link);
    update_client(&mut client, &mut link);

    assert_eq!(count(&client, 0), 1);

    server.world.remove_component(marker, 0);

    tick_server(&mut server, &mut link);
    update_client(&mut client, &mut link);

    assert_eq!(count(&client, 0), 0);

    server.world.set_component(marker, 0, bincode::serialize(&()).unwrap());

    tick_server(&mut server, &mut link);
    update_client(&mut client, &mut link);

    assert_eq!(count(&client, 0), 1);
}

#[test]
fn despawn_entity() {
    let mut server = create_server(1);
    let mut client = create_client(1);
    let mut link = Link::default();

    let marker = server.world.spawn(true, false);
    server.world.set_component(marker, 0, bincode::serialize(&()).unwrap());

    tick_server(&mut server, &mut link);
    update_client(&mut client, &mut link);

    assert_eq!(count(&client, 0), 1);

    server.world.despawn(marker);

    tick_server(&mut server, &mut link);
    update_client(&mut client, &mut link);

    assert_eq!(count(&client, 0), 0);
}
