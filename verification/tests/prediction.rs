use netsim::games::{CounterGame, SpawnOnPressGame};
use netsim::history::ActionState;
use netsim::registry::Registry;
use netsim::sim::{Role, SimCore};
use netsim::tick::TickStrategy;

const PERIOD_NS: u64 = 10_000_000;

#[derive(Default)]
struct Link {
    to_client: Vec<Vec<u8>>,
    to_server: Vec<Vec<u8>>,
}

fn registry(n: u64) -> Registry {
    let mut reg = Registry::new();
    let mut t = 0u64;
    while t < n {
        reg.register(t);
        t += 1;
    }
    reg
}

fn create_server(n: u64) -> SimCore {
    SimCore::new(Role::Server, TickStrategy::Manual, PERIOD_NS, registry(n))
}

fn create_client(n: u64) -> SimCore {
    let mut client = SimCore::new(Role::Client, TickStrategy::Manual, PERIOD_NS, registry(n));
    client.connected = true;
    client
}

fn count(core: &SimCore, rep: usize) -> usize {
    core.world.count_with_component(rep)
}

fn pos_values(core: &SimCore) -> Vec<u64> {
    let ids = core.world.ids_with_component(0);
    ids.iter()
        .map(|id| {
            let bytes = core.world.component_bytes(*id, 0).unwrap();
            bincode::deserialize::<u64>(bytes).unwrap()
        })
        .collect()
}

#[test]
fn basic_prediction() {
    let game = CounterGame { rep: 0 };
    let mut server = create_server(1);
    let mut client = create_client(1);
    let mut link = Link::default();

    let pos = server.world.spawn(true, false);
    server.world.set_component(pos, 0, bincode::serialize(&0u64).unwrap());

    // tick(server); client.update()
    server.queue_do_tick();
    let incoming = std::mem::take(&mut link.to_server);
    let mut out = server.update(&game, 0, 0, &incoming).unwrap();
    link.to_client.append(&mut out);

    let incoming = std::mem::take(&mut link.to_client);
    let mut out = client.update(&game, 0, 0, &incoming).unwrap();
    link.to_server.append(&mut out);

    for v in pos_values(&server) {
        assert_eq!(v, 1);
    }
    for v in pos_values(&client) {
        assert_eq!(v, 1);
    }

    // tick(client); tick(client)
    for _ in 0..2 {
        client.queue_do_tick();
        let incoming = std::mem::take(&mut link.to_client);
        let mut out = client.update(&game, 0, 0, &incoming).unwrap();
        link.to_server.append(&mut out);
    }

    for v in pos_values(&server) {
        assert_eq!(v, 1);
    }
    for v in pos_values(&client) {
        assert_eq!(v, 3);
    }

    // tick(server); tick(client)
    server.queue_do_tick();
    let incoming = std::mem::take(&mut link.to_server);
    let mut out = server.update(&game, 0, 0, &incoming).unwrap();
    link.to_client.append(&mut out);

    client.queue_do_tick();
    let incoming = std::mem::take(&mut link.to_client);
    let mut out = client.update(&game, 0, 0, &incoming).unwrap();
    link.to_server.append(&mut out);

    for v in pos_values(&server) {
        assert_eq!(v, 2);
    }
    for v in pos_values(&client) {
        assert_eq!(v, 4);
    }
}

#[test]
fn predicted_spawn() {
    let game = SpawnOnPressGame { action: 0, marker: 1 };
    let mut server = create_server(2);
    let mut client = create_client(2);
    let mut link = Link::default();

    let player = server.world.spawn(true, false);
    server.world.set_component(player, 0, bincode::serialize(&()).unwrap());

    let mut tick_server = |server: &mut SimCore, link: &mut Link| {
        server.queue_do_tick();
        let incoming = std::mem::take(&mut link.to_server);
        let mut out = server.update(&game, 0, 0, &incoming).unwrap();
        link.to_client.append(&mut out);
    };
    let mut tick_client = |client: &mut SimCore, link: &mut Link| {
        client.queue_do_tick();
        let incoming = std::mem::take(&mut link.to_client);
        let mut out = client.update(&game, 0, 0, &incoming).unwrap();
        link.to_server.append(&mut out);
    };

    tick_client(&mut client, &mut link);
    tick_server(&mut server, &mut link);
    tick_client(&mut client, &mut link);

    // take control of the replicated player on the client and press the
    // spawn action
    let players = client.world.ids_with_component(0);
    assert_eq!(players.len(), 1);
    let local_player = players[0];
    let idx = client.world.find_index(local_player).unwrap();
    client.world.entities[idx].control = true;
    let mut actions = ActionState::new(1);
    actions.press(0);
    client.world.entities[idx].actions = Some(actions);

    tick_client(&mut client, &mut link);
    assert_eq!(count(&client, 1), 1);

    let idx = client.world.find_index(local_player).unwrap();
    client.world.entities[idx].actions = Some(ActionState::new(1));
    tick_client(&mut client, &mut link);
    assert_eq!(count(&client, 1), 1);
    assert_eq!(count(&server, 1), 0);

    tick_server(&mut server, &mut link);
    tick_client(&mut client, &mut link);
    tick_server(&mut server, &mut link);
    tick_client(&mut client, &mut link);
    tick_server(&mut server, &mut link);
    tick_client(&mut client, &mut link);
    assert_eq!(count(&server, 1), 1);

    tick_client(&mut client, &mut link);
    assert_eq!(count(&client, 1), 1);

    tick_server(&mut server, &mut link);
    tick_client(&mut client, &mut link);
    assert_eq!(count(&client, 1), 1);
}
