use blastcap::game::GameStartedState;
use blastcap::identity::BOT_ADDR;
use blastcap::actor::{CardHolder, Controller};
use blastcap::waiting::WaitingState;
use blastcap::abilities::Abilities;
use blastcap::messages::{ClientRequest, HostPoll, Outbound, ServerMessage};
use blastcap::states::{
    handle_req, DungeonSettings, EnterDungeonState, LobbyState, ServerData, State,
};

const C: u64 = 0x7f00_0001_1f90_0000;

fn catalog() -> Vec<(u64, bool)> {
    vec![(1, false), (2, true), (3, false)]
}

#[test]
fn first_client_becomes_host() {
    let mut data = ServerData::default();
    let mut out = Vec::new();
    let clients = vec![C];
    let s = handle_req(
        State::Lobby(LobbyState::new()),
        HostPoll::ClientConnected(C),
        &mut data,
        &clients,
        1,
        &catalog(),
        &mut out,
    );
    assert!(matches!(s, State::Lobby(_)));
    assert_eq!(data.host_player, Some(C));
    assert_eq!(out.len(), 2);
    assert!(matches!(&out[0], Outbound::Send(a, ServerMessage::NotifyHost) if *a == C));
    assert!(matches!(&out[1], Outbound::Send(a, ServerMessage::PlayerList(l)) if *a == C && l == &vec![C]));
}

#[test]
fn second_client_is_announced() {
    let d = 0x0a00_0002_0050_0000u64;
    let mut data = ServerData { host_player: Some(C), tick: 0 };
    let mut out = Vec::new();
    let clients = vec![C, d];
    let s = handle_req(
        State::Lobby(LobbyState::new()),
        HostPoll::ClientConnected(d),
        &mut data,
        &clients,
        2,
        &catalog(),
        &mut out,
    );
    assert!(matches!(s, State::Lobby(_)));
    assert_eq!(data.host_player, Some(C));
    assert_eq!(out.len(), 2);
    assert!(matches!(&out[0], Outbound::Send(a, ServerMessage::NewUser(n)) if *a == C && *n == d));
    assert!(matches!(&out[1], Outbound::Send(a, ServerMessage::PlayerList(l)) if *a == d && l.len() == 2));
}

#[test]
fn leaving_client_is_removed_and_announced() {
    let mut data = ServerData::default();
    let mut out = Vec::new();
    let s = handle_req(
        State::Lobby(LobbyState::new()),
        HostPoll::RemoveClient(C),
        &mut data,
        &vec![],
        0,
        &catalog(),
        &mut out,
    );
    assert!(matches!(s, State::Lobby(_)));
    assert_eq!(out.len(), 2);
    assert!(matches!(&out[0], Outbound::RemoveClient(a) if *a == C));
    assert!(matches!(&out[1], Outbound::Broadcast(ServerMessage::UserLeft(a)) if *a == C));
}

#[test]
fn ticks_report_status_every_second() {
    let mut data = ServerData { host_player: Some(C), tick: 28 };
    let mut out = Vec::new();
    let s = handle_req(State::Lobby(LobbyState::new()), HostPoll::Tick, &mut data, &vec![C], 1, &catalog(), &mut out);
    assert!(matches!(s, State::Lobby(_)));
    assert_eq!(data.tick, 29);
    assert!(out.is_empty());
    let s = handle_req(s, HostPoll::Tick, &mut data, &vec![C], 1, &catalog(), &mut out);
    assert!(matches!(s, State::Lobby(_)));
    assert_eq!(data.tick, 30);
    assert_eq!(out.len(), 1);
    assert!(matches!(&out[0], Outbound::Send(a, ServerMessage::Status { user_count: 1 }) if *a == C));
    let mut wrap = ServerData { host_player: None, tick: usize::MAX };
    let mut out2 = Vec::new();
    let _ = handle_req(State::Lobby(LobbyState::new()), HostPoll::Tick, &mut wrap, &vec![], 0, &catalog(), &mut out2);
    assert_eq!(wrap.tick, 0);
    assert!(out2.is_empty());
}

#[test]
fn nothing_changes_nothing() {
    let mut data = ServerData { host_player: Some(C), tick: 3 };
    let mut out = Vec::new();
    let s = handle_req(State::Lobby(LobbyState::new()), HostPoll::Nothing, &mut data, &vec![C], 1, &catalog(), &mut out);
    assert!(matches!(s, State::Lobby(_)));
    assert!(out.is_empty());
    assert_eq!(data.tick, 3);
}

#[test]
fn ping_gets_pong_in_every_state() {
    let mut data = ServerData::default();
    let mut out = Vec::new();
    let req = HostPoll::ClientRequest { addr: C, req: ClientRequest::Ping };
    let s = handle_req(State::Lobby(LobbyState::new()), req, &mut data, &vec![C], 1, &catalog(), &mut out);
    assert!(matches!(s, State::Lobby(_)));
    assert_eq!(out.len(), 1);
    assert!(matches!(&out[0], Outbound::Send(a, ServerMessage::Pong) if *a == C));
}

#[test]
fn lobby_answers_only_the_host() {
    let mut data = ServerData { host_player: Some(C), tick: 0 };
    let mut out = Vec::new();
    let s = handle_req(
        State::Lobby(LobbyState::new()),
        HostPoll::ClientRequest { addr: C, req: ClientRequest::RequestMapList },
        &mut data,
        &vec![C],
        1,
        &catalog(),
        &mut out,
    );
    assert!(matches!(s, State::Lobby(_)));
    assert_eq!(out.len(), 1);
    assert!(matches!(&out[0], Outbound::Send(a, ServerMessage::MapList(l)) if *a == C && l == &vec!["SimpleTestMap".to_string()]));
    let mut out2 = Vec::new();
    let s = handle_req(
        s,
        HostPoll::ClientRequest { addr: 99 << 16, req: ClientRequest::RequestMapList },
        &mut data,
        &vec![C],
        1,
        &catalog(),
        &mut out2,
    );
    assert!(matches!(s, State::Lobby(_)));
    assert!(out2.is_empty());
}

#[test]
fn lobby_to_dungeon_to_game() {
    let mut data = ServerData { host_player: Some(C), tick: 0 };
    let clients = vec![C];
    let mut out = Vec::new();
    let s = handle_req(
        State::Lobby(LobbyState::new()),
        HostPoll::ClientRequest { addr: C, req: ClientRequest::ChangeToEnterDungeon },
        &mut data,
        &clients,
        1,
        &catalog(),
        &mut out,
    );
    assert!(matches!(s, State::EnterDungeon(_)));
    assert!(matches!(&out[0], Outbound::Broadcast(ServerMessage::EnterDungeonState)));

    let mut out = Vec::new();
    let s = handle_req(
        s,
        HostPoll::ClientRequest { addr: C, req: ClientRequest::ChangeDungeonSetting(0, 2) },
        &mut data,
        &clients,
        1,
        &catalog(),
        &mut out,
    );
    assert!(matches!(s, State::EnterDungeon(_)));
    assert_eq!(out.len(), 1);
    assert!(matches!(&out[0], Outbound::Broadcast(ServerMessage::ServerNotice(t)) if t == "Bot amount: 0 -> 2"));

    let mut out = Vec::new();
    let s = handle_req(
        s,
        HostPoll::ClientRequest { addr: C, req: ClientRequest::ChangeDungeonSetting(7, 9) },
        &mut data,
        &clients,
        1,
        &catalog(),
        &mut out,
    );
    assert!(matches!(s, State::EnterDungeon(_)));
    assert!(out.is_empty());

    let mut out = Vec::new();
    let s = handle_req(
        s,
        HostPoll::ClientRequest { addr: C, req: ClientRequest::NotifyReady(1) },
        &mut data,
        &clients,
        1,
        &catalog(),
        &mut out,
    );
    let g = match s {
        State::GameStarted(g) => g,
        _ => panic!("the game should have started"),
    };
    assert!(matches!(&out[0], Outbound::Broadcast(ServerMessage::ReadyStatus(a, 1)) if *a == C));
    assert!(matches!(&out[1], Outbound::Broadcast(ServerMessage::EnterClearRoomState)));
    assert!(matches!(&out[2], Outbound::Sleep(1000)));
    assert!(out.iter().any(|o| matches!(o, Outbound::Broadcast(ServerMessage::SpawnMap { .. }))));
    assert!(out.iter().any(|o| matches!(o, Outbound::Broadcast(ServerMessage::ActorList { .. }))));
    assert!(g.actors.len() <= 3);
    for a in g.actors.iter() {
        assert_eq!(a.position.y, 1);
        assert!(a.health == 10 || a.health == 15);
    }
    let players = g.actors.iter().filter(|a| a.controller == Controller::Player(C)).count();
    assert!(players <= 1);
}

#[test]
fn readiness_can_be_withdrawn() {
    let mut data = ServerData { host_player: Some(C), tick: 0 };
    let d = 0x0a00_0002_0050_0000u64;
    let clients = vec![C, d];
    let mut out = Vec::new();
    let s = State::EnterDungeon(EnterDungeonState::new(&clients));
    let s = handle_req(
        s,
        HostPoll::ClientRequest { addr: C, req: ClientRequest::NotifyReady(1) },
        &mut data,
        &clients,
        2,
        &catalog(),
        &mut out,
    );
    assert!(matches!(s, State::EnterDungeon(_)));
    let s = handle_req(
        s,
        HostPoll::ClientRequest { addr: C, req: ClientRequest::NotifyReady(0) },
        &mut data,
        &clients,
        2,
        &catalog(),
        &mut out,
    );
    assert!(matches!(s, State::EnterDungeon(_)));
    let s = handle_req(
        s,
        HostPoll::ClientRequest { addr: d, req: ClientRequest::NotifyReady(1) },
        &mut data,
        &clients,
        2,
        &catalog(),
        &mut out,
    );
    // C is waiting again, so the game has not started
    assert!(matches!(s, State::EnterDungeon(_)));
    assert_eq!(out.len(), 3);
}

#[test]
fn dungeon_settings_numbers() {
    assert!(matches!(DungeonSettings::try_from(0), Ok(DungeonSettings::BotAmount)));
    assert!(DungeonSettings::try_from(1).is_err());
}

#[test]
fn card_holder_draws_from_the_top() {
    let mut h = CardHolder::with_cards(vec![1, 2, 3, 4]);
    assert_eq!(h.draw(2), vec![4, 3]);
    assert_eq!(h.hand(), vec![4, 3]);
    assert_eq!(h.check_hand(1), Some(3));
    assert_eq!(h.check_hand(2), None);
    assert_eq!(h.draw(5), vec![2, 1]);
    assert_eq!(h.hand(), vec![4, 3, 2, 1]);
    assert_eq!(h.draw(1), Vec::<u64>::new());
    h.trash_card(0);
    assert_eq!(h.hand(), vec![4, 3, 2, 1]);
}

#[test]
fn card_holder_test_data_has_four_of_each_plain_card() {
    let mut h = CardHolder::test_data(&catalog());
    let mut all = h.draw(100);
    all.sort();
    assert_eq!(all, vec![1, 1, 1, 1, 3, 3, 3, 3]);
}

#[test]
fn abilities_default_and_lookup() {
    let a = Abilities::default();
    assert_eq!(a.get_keys(), vec!["Walk".to_string(), "Jump".to_string(), "Punch".to_string()]);
    assert!(a.contains("Punch"));
    assert!(!a.contains("Fly"));
    let m = Abilities::get_map();
    assert_eq!(m[2], ("Punch".to_string(), "Punch a target!".to_string()));
    let b = Abilities::from_names(vec!["Jump".into(), "Jump".into(), "Walk".into()]);
    assert_eq!(b.get_keys(), vec!["Jump".to_string(), "Walk".to_string()]);
}

#[test]
fn waiting_room_raises_the_pyramid() {
    let d = 0x0a00_0002_0050_0000u64;
    let clients = vec![C, d];
    let mut w = WaitingState::new(&clients);
    let mut out = Vec::new();
    assert!(w.client_req(C, ClientRequest::NotifyReady(1), &clients, &mut out).is_none());
    assert!(out.is_empty());
    assert!(w.client_req(C, ClientRequest::Ping, &clients, &mut out).is_none());
    assert_eq!(out.len(), 1);
    let mut g = w.client_req(d, ClientRequest::NotifyReady(0), &clients, &mut out).unwrap();
    match &out[1] {
        Outbound::Broadcast(ServerMessage::SpawnMap { x, y, z }) => {
            assert_eq!(x.len(), 1496);
            assert_eq!((x[0], y[0], z[0]), (0, 0, 0));
            assert_eq!((x[1], y[1], z[1]), (0, 0, 1));
            assert_eq!((x[16], y[16], z[16]), (1, 0, 0));
            assert_eq!((x[256], y[256], z[256]), (0, 1, 0));
            assert_eq!((x[1495], y[1495], z[1495]), (0, 15, 0));
        }
        _ => panic!("the pyramid should be sent first"),
    }
    assert_eq!(g.actors.len(), 1);
    assert_eq!(g.actors[0].position.x, 15);
    assert_eq!(g.actors[0].position.y, 1);
    assert_eq!(g.actors[0].health, 10);
    assert_eq!(g.actors[0].name, "Player 0");
    assert_eq!(g.current_actor().name, "Player 0");
    g.current_actor_mut().base_movement = 9;
    assert_eq!(g.actors[0].base_movement, 9);
}

#[test]
fn ping_gets_pong_while_entering_the_dungeon() {
    let mut data = ServerData { host_player: Some(C), tick: 4 };
    let mut out = Vec::new();
    let s = handle_req(
        State::EnterDungeon(EnterDungeonState::new(&vec![C])),
        HostPoll::ClientRequest { addr: C, req: ClientRequest::Ping },
        &mut data,
        &vec![C],
        1,
        &catalog(),
        &mut out,
    );
    assert!(matches!(s, State::EnterDungeon(_)));
    assert_eq!(out.len(), 1);
    assert!(matches!(&out[0], Outbound::Send(a, ServerMessage::Pong) if *a == C));
    assert_eq!(data.tick, 4);
}

#[test]
fn requests_that_cannot_be_carried_out() {
    let g = GameStartedState::new();
    // a bot ending a turn in a game without actors would have no actor to reset
    assert!(!g.request_fits(BOT_ADDR, &ClientRequest::EndTurn));
    assert!(!g.request_fits(BOT_ADDR, &ClientRequest::Action("Walk".to_string(), 1, 1, 1)));
    // a player whose turn it is not is simply ignored
    assert!(g.request_fits(C, &ClientRequest::EndTurn));
    assert!(g.request_fits(BOT_ADDR, &ClientRequest::Ping));
}

#[test]
fn opened_game_lists_players_first() {
    let mut data = ServerData { host_player: Some(C), tick: 0 };
    let clients = vec![C];
    let mut out = Vec::new();
    let s = State::EnterDungeon(EnterDungeonState::new(&clients));
    let s = handle_req(
        s,
        HostPoll::ClientRequest { addr: C, req: ClientRequest::NotifyReady(1) },
        &mut data,
        &clients,
        1,
        &catalog(),
        &mut out,
    );
    let g = match s {
        State::GameStarted(g) => g,
        _ => panic!("the game should have started"),
    };
    assert_eq!(g.actors.len(), 1);
    assert_eq!(g.actors[0].controller, Controller::Player(C));
    assert_eq!(g.actors[0].health, 10);
    match out.last() {
        Some(Outbound::Broadcast(ServerMessage::ActorList { names })) => assert_eq!(names, &vec!["Player 0".to_string()]),
        _ => panic!("the actor list comes last"),
    }
}
