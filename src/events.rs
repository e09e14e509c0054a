use queue::Queue;
use vstd::prelude::*;
use crate::board::AttackOutcome;

verus! {

/// A seated player as the lobby shows them.
#[derive(Debug, Clone)]
pub struct PlayerInfo {
    pub user_id: String,
    pub name: String,
}

/// A room waiting for a second player.
#[derive(Debug, Clone)]
pub struct RoomInfo {
    pub room_id: String,
    pub players: Vec<PlayerInfo>,
}

/// A leaderboard line.
#[derive(Debug, Clone)]
pub struct Winner {
    pub name: String,
    pub wins: u32,
}

/// What an outbound notification says.
#[derive(Debug, Clone)]
pub enum Payload {
    LobbyUpdated(Vec<RoomInfo>),
    LeaderboardUpdated(Vec<Winner>),
    Registered { user_id: String, name: String },
    GameCreated { room_id: String, player_id: String },
    AttackResult { room_id: String, x: u8, y: u8, outcome: AttackOutcome },
    GameOver { room_id: String, winner_id: String },
}

/// An outbound notification: to the connection with the given key, or to
/// every connection.
#[derive(Debug, Clone)]
pub enum ServerEvent {
    User(String, Payload),
    All(Payload),
}

impl ServerEvent {
    /// Whether this event is to be delivered to the connection with key
    /// `key`: a broadcast goes to every connection, an addressed event to
    /// its recipient only.
    pub fn delivers_to(&self, key: &String) -> (r: bool)
        ensures
            r == (self is All || (self is User && self->User_0@ == key@)),
    {
        match self {
            ServerEvent::All(_) => true,
            ServerEvent::User(to, _) => *to == *key,
        }
    }
}

#[verifier::external_type_specification]
#[verifier::external_body]
#[verifier::reject_recursive_types(T)]
pub struct ExQueue<T>(Queue<T>);

/// The events held by a queue, front first.
pub uninterp spec fn queued(q: Queue<ServerEvent>) -> Seq<ServerEvent>;

/// The capacity a queue was made with; `None` when it grows as needed.
pub uninterp spec fn queue_cap(q: Queue<ServerEvent>) -> Option<usize>;

/// Relies on `queue::Queue::new`: an empty queue without a capacity.
#[verifier::external_body]
pub(crate) fn new_queue() -> (r: Queue<ServerEvent>)
    ensures
        queued(r) == Seq::<ServerEvent>::empty(),
        queue_cap(r) is None,
{
    Queue::new()
}

/// Relies on `queue::Queue::queue`: appends at the back unless a capacity
/// is set and reached, in which case it refuses and changes nothing.
#[verifier::external_body]
pub(crate) fn enqueue(q: &mut Queue<ServerEvent>, e: ServerEvent) -> (r: Result<usize, ()>)
    ensures
        queue_cap(*final(q)) == queue_cap(*old(q)),
        queue_cap(*old(q)) is Some && queued(*old(q)).len() >= queue_cap(*old(q))->Some_0 ==> (r
            is Err && queued(*final(q)) == queued(*old(q))),
        queue_cap(*old(q)) is None || queued(*old(q)).len() < queue_cap(*old(q))->Some_0 ==> (r
            is Ok && queued(*final(q)) == queued(*old(q)).push(e)),
{
    q.queue(e)
}

/// Relies on `queue::Queue::dequeue`: removes and returns the front event.
#[verifier::external_body]
pub(crate) fn dequeue(q: &mut Queue<ServerEvent>) -> (r: Option<ServerEvent>)
    ensures
        queue_cap(*final(q)) == queue_cap(*old(q)),
        queued(*old(q)).len() == 0 ==> r is None && queued(*final(q)) == queued(*old(q)),
        queued(*old(q)).len() > 0 ==> r == Some(queued(*old(q))[0]) && queued(*final(q)) == queued(
            *old(q),
        ).drop_first(),
{
    q.dequeue()
}

} // verus!
