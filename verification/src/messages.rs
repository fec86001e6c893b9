//! What clients ask of the server, what the server tells them, and what the
//! server's state machine asks its host to do.

use vstd::prelude::*;

verus! {

/// A request a client sends to the server.
#[derive(Debug, PartialEq)]
pub enum ClientRequest {
    Ping,
    ChatMessage(String),
    RequestMapList,
    StartMap(String),
    NotifyReady(u8),
    Action(String, usize, usize, usize),
    UseCard(usize, usize, usize, usize),
    EndTurn,
    ChangeDungeonSetting(u32, u32),
    ChangeToEnterDungeon,
}

/// A message the server sends to clients. Durations are in milliseconds.
#[allow(inconsistent_fields)]
#[derive(Debug, PartialEq)]
pub enum ServerMessage {
    Pong,
    ChatMessage(u64, String),
    ServerNotice(String),
    NewUser(u64),
    UserLeft(u64),
    PlayerList(Vec<u64>),
    Status { user_count: u32 },
    NotifyHost,
    MapList(Vec<String>),
    StartMap(String),
    SpawnActor {
        yours: bool,
        name: String,
        id: usize,
        x: usize,
        y: usize,
        z: usize,
        abilities: Vec<String>,
        movement: u32,
        health: i32,
        max_health: i32,
    },
    YourTurn { actor: usize, movement: u32, cards: Vec<u64> },
    ActorTurn { actor: usize },
    MoveActor { actor: usize, movement: u32, x: Vec<usize>, y: Vec<usize>, z: Vec<usize> },
    Action { action: String, actor: usize, target: usize, target_damage: i32, time_ms: u32 },
    SpawnMap { x: Vec<usize>, y: Vec<usize>, z: Vec<usize> },
    EnterDungeonState,
    ReadyStatus(u64, u8),
    EnterClearRoomState,
    ActorList { names: Vec<String> },
}

/// What the host reports on each poll.
pub enum HostPoll {
    RemoveClient(u64),
    ClientConnected(u64),
    ClientRequest { addr: u64, req: ClientRequest },
    Tick,
    Nothing,
}

/// Something the server's host must do, in the order the state machine
/// asks for it.
pub enum Outbound {
    /// Send a message to one client.
    Send(u64, ServerMessage),
    /// Send a message to every client.
    Broadcast(ServerMessage),
    /// Feed a request to the server as if a bot had sent it.
    Mock(ClientRequest),
    /// Forget a client.
    RemoveClient(u64),
    /// Wait before going on with the next actions.
    Sleep(u64),
    /// Call back into the state machine's wake-up after the given time.
    WakeAfter(u64),
}

} // verus!
