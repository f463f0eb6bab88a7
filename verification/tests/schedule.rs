use netsim::games::NullGame;
use netsim::registry::Registry;
use netsim::sim::{Role, SimCore};
use netsim::tick::TickStrategy;

const PERIOD_NS: u64 = 10_000_000;

#[derive(Default)]
struct Link {
    to_client: Vec<Vec<u8>>,
    to_server: Vec<Vec<u8>>,
}

fn create_server() -> SimCore {
    SimCore::new(Role::Server, TickStrategy::Manual, PERIOD_NS, Registry::new())
}

fn create_client() -> SimCore {
    let mut client = SimCore::new(Role::Client, TickStrategy::Manual, PERIOD_NS, Registry::new());
    client.connected = true;
    client
}

fn update_server(server: &mut SimCore, link: &mut Link) {
    let incoming = std::mem::take(&mut link.to_server);
    let mut out = server.update(&NullGame, 0, 0, &incoming).unwrap();
    link.to_client.append(&mut out);
}

fn update_client(client: &mut SimCore, link: &mut Link) {
    let incoming = std::mem::take(&mut link.to_client);
    let mut out = client.update(&NullGame, 0, 0, &incoming).unwrap();
    link.to_server.append(&mut out);
}

fn tick_server(server: &mut SimCore, link: &mut Link) {
    server.queue_do_tick();
    update_server(server, link);
}

fn tick_client(client: &mut SimCore, link: &mut Link) {
    client.queue_do_tick();
    update_client(client, link);
}

#[test]
fn manual_tick() {
    let mut server = create_server();
    let mut client = create_client();
    let mut link = Link::default();

    assert_eq!(server.tick.0, 0);
    assert_eq!(server.passes, 0);
    assert_eq!(client.tick.0, 0);
    assert_eq!(client.passes, 0);

    tick_server(&mut server, &mut link);
    assert_eq!(server.tick.0, 1);
    assert_eq!(server.passes, 1);
    assert_eq!(client.tick.0, 0);
    assert_eq!(client.passes, 0);

    update_client(&mut client, &mut link);
    assert_eq!(server.tick.0, 1);
    assert_eq!(server.passes, 1);
    assert_eq!(client.tick.0, 1);
    assert_eq!(client.passes, 0);

    tick_client(&mut client, &mut link);
    assert_eq!(server.tick.0, 1);
    assert_eq!(server.passes, 1);
    assert_eq!(client.tick.0, 2);
    assert_eq!(client.passes, 1);

    tick_server(&mut server, &mut link);
    tick_client(&mut client, &mut link);
    assert_eq!(server.tick.0, 2);
    assert_eq!(server.passes, 2);
    assert_eq!(client.tick.0, 3);
    assert_eq!(client.passes, 2);

    tick_client(&mut client, &mut link);
    tick_client(&mut client, &mut link);
    assert_eq!(server.tick.0, 2);
    assert_eq!(server.passes, 2);
    assert_eq!(client.tick.0, 5);
    assert_eq!(client.passes, 4);

    tick_server(&mut server, &mut link);
    tick_server(&mut server, &mut link);
    assert_eq!(server.tick.0, 4);
    assert_eq!(server.passes, 4);
    assert_eq!(client.tick.0, 5);
    assert_eq!(client.passes, 4);

    for _ in 0..10 {
        tick_server(&mut server, &mut link);
    }
    tick_client(&mut client, &mut link);
    assert_eq!(server.tick.0, 14);
    assert_eq!(server.passes, 14);
    assert_eq!(client.tick.0, 15);
    assert_eq!(client.passes, 5);

    for _ in 0..10 {
        tick_client(&mut client, &mut link);
    }
    assert_eq!(server.tick.0, 14);
    assert_eq!(server.passes, 14);
    assert_eq!(client.tick.0, 25);
    assert_eq!(client.passes, 15);

    let starting_server_tick = server.tick.0;
    let starting_server_counter = server.passes;
    let starting_client_tick = client.tick.0;
    let starting_client_counter = client.passes;

    for i in 1..100u64 {
        tick_server(&mut server, &mut link);
        tick_client(&mut client, &mut link);
        assert_eq!(server.tick.0, starting_server_tick + i);
        assert_eq!(server.passes, starting_server_counter + i);
        assert_eq!(client.tick.0, starting_client_tick + i);
        assert_eq!(client.passes, starting_client_counter + 11 * i);
    }
}
