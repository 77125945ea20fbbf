use std::collections::VecDeque;

use vstd::prelude::*;

use crate::connection::lemma_filter_take_step;
use crate::event::{first_index, lemma_first_index};

verus! {

pub type PlayerId = u32;

pub type LobbyId = u64;

#[derive(Debug, Clone, Copy, PartialEq, Eq, Structural, Hash)]
pub enum LobbyState {
    Waiting,
    Countdown,
    InGame,
    Finished,
}

#[derive(Debug, Clone)]
pub struct LobbySettings {
    pub name: String,
    pub max_players: u8,
    pub password: Option<String>,
    pub map_name: String,
    pub game_mode: String,
    pub countdown_secs: u8,
    pub public: bool,
}

impl Default for LobbySettings {
    fn default() -> (s: Self)
        ensures
            s.name@ == "Game Lobby"@,
            s.max_players == 16,
            s.password is None,
            s.map_name@ == "default"@,
            s.game_mode@ == "deathmatch"@,
            s.countdown_secs == 10,
            s.public,
    {
        LobbySettings {
            name: "Game Lobby".to_owned(),
            max_players: 16,
            password: None,
            map_name: "default".to_owned(),
            game_mode: "deathmatch".to_owned(),
            countdown_secs: 10,
            public: true,
        }
    }
}

/// What a lobby browser shows of a lobby.
#[derive(Debug, Clone)]
pub struct LobbyInfo {
    pub id: LobbyId,
    pub name: String,
    pub player_count: u8,
    pub max_players: u8,
    pub has_password: bool,
    pub map_name: String,
    pub game_mode: String,
}

/// A group of players waiting for, counting down to, or playing a match.
#[derive(Debug)]
pub struct Lobby {
    pub id: LobbyId,
    pub settings: LobbySettings,
    pub state: LobbyState,
    pub players: Vec<PlayerId>,
    pub host: PlayerId,
    /// Creation time in milliseconds of the caller's clock.
    pub created_at_ms: u64,
    /// When the countdown started, in milliseconds of the caller's clock.
    pub countdown_start_ms: Option<u64>,
}

/// Matches the player `p`.
pub open spec fn is_player(p: PlayerId) -> spec_fn(PlayerId) -> bool {
    |x: PlayerId| x == p
}

/// Matches the queue entry of player `p`.
pub open spec fn entry_of(p: PlayerId) -> spec_fn((PlayerId, u64)) -> bool {
    |e: (PlayerId, u64)| e.0 == p
}

/// `players` without the first occurrence of `p`.
pub open spec fn without_player(players: Seq<PlayerId>, p: PlayerId) -> Seq<PlayerId> {
    match first_index(players, is_player(p)) {
        Some(i) => players.remove(i),
        None => players,
    }
}

/// Whole seconds elapsed from `start_ms` to `now_ms` (zero if the clock went
/// backwards), reduced to a byte as the countdown does.
pub open spec fn elapsed_secs_byte(start_ms: u64, now_ms: u64) -> u8 {
    (((if now_ms >= start_ms {
        (now_ms - start_ms) as int
    } else {
        0int
    }) / 1000) % 256) as u8
}

impl Lobby {
    /// Players in the lobby are distinct.
    pub open spec fn wf(&self) -> bool {
        forall|i: int, j: int|
            0 <= i < j < self.players@.len() ==> self.players@[i] != self.players@[j]
    }

    /// The host is one of the players.
    pub open spec fn host_present(&self) -> bool {
        self.players@.contains(self.host)
    }

    pub fn new(id: LobbyId, host: PlayerId, settings: LobbySettings, now_ms: u64) -> (l: Self)
        ensures
            l.wf(),
            l.host_present(),
            l.id == id,
            l.settings == settings,
            l.state == LobbyState::Waiting,
            l.players@ == seq![host],
            l.host == host,
            l.created_at_ms == now_ms,
            l.countdown_start_ms is None,
    {
        let mut players = Vec::new();
        players.push(host);
        assert(players@ =~= seq![host]);
        assert(players@[0] == host);
        Lobby {
            id,
            settings,
            state: LobbyState::Waiting,
            players,
            host,
            created_at_ms: now_ms,
            countdown_start_ms: None,
        }
    }

    /// Number of players, reduced to a byte.
    pub fn player_count(&self) -> (n: u8)
        ensures
            n == (self.players@.len() % 256) as u8,
    {
        (self.players.len() % 256) as u8
    }

    pub fn is_full(&self) -> (r: bool)
        ensures
            r == (self.players@.len() >= self.settings.max_players),
    {
        self.players.len() >= self.settings.max_players as usize
    }

    pub fn is_empty(&self) -> (r: bool)
        ensures
            r == (self.players@.len() == 0),
    {
        self.players.len() == 0
    }

    pub fn has_password(&self) -> (r: bool)
        ensures
            r == (self.settings.password is Some),
    {
        self.settings.password.is_some()
    }

    /// Adds `player_id` unless the lobby is full or already holds them.
    pub fn add_player(&mut self, player_id: PlayerId) -> (added: bool)
        ensures
            old(self).wf() ==> final(self).wf(),
            old(self).host_present() ==> final(self).host_present(),
            added == !(old(self).players@.len() >= old(self).settings.max_players || old(self).players@.contains(player_id)),
            added ==> final(self).players@ == old(self).players@.push(player_id),
            !added ==> final(self).players@ == old(self).players@,
            final(self).id == old(self).id,
            final(self).settings == old(self).settings,
            final(self).state == old(self).state,
            final(self).host == old(self).host,
            final(self).created_at_ms == old(self).created_at_ms,
            final(self).countdown_start_ms == old(self).countdown_start_ms,
    {
        if self.is_full() || vec_contains(&self.players, player_id) {
            return false;
        }
        let ghost before = self.players@;
        self.players.push(player_id);
        proof {
            assert(self.players@[before.len() as int] == player_id);
            if old(self).wf() {
                assert forall|a: int, b: int| 0 <= a < b < self.players@.len() implies self.players@[a]
                    != self.players@[b] by {
                    if b == before.len() {
                        assert(self.players@[a] == before[a]);
                    } else {
                        assert(self.players@[a] == before[a] && self.players@[b] == before[b]);
                    }
                }
            }
            if before.contains(self.host) {
                let k = choose|k: int| 0 <= k < before.len() && before[k] == self.host;
                assert(self.players@[k] == self.host);
            }
        }
        true
    }

    /// Removes `player_id`; when the host leaves and players remain, the first
    /// remaining player becomes host.
    pub fn remove_player(&mut self, player_id: PlayerId) -> (removed: bool)
        ensures
            old(self).wf() ==> final(self).wf(),
            old(self).host_present() && final(self).players@.len() > 0 ==> final(self).host_present(),
            removed == old(self).players@.contains(player_id),
            final(self).players@ == without_player(old(self).players@, player_id),
            final(self).host == (if removed && old(self).host == player_id && final(self).players@.len() > 0 {
                final(self).players@[0]
            } else {
                old(self).host
            }),
            final(self).id == old(self).id,
            final(self).settings == old(self).settings,
            final(self).state == old(self).state,
            final(self).created_at_ms == old(self).created_at_ms,
            final(self).countdown_start_ms == old(self).countdown_start_ms,
    {
        let ghost pred = is_player(player_id);
        proof {
            lemma_first_index(self.players@, pred);
        }
        let mut i: usize = 0;
        while i < self.players.len()
            invariant
                i <= self.players@.len(),
                self.players == old(self).players,
                self.host == old(self).host,
                self.id == old(self).id,
                self.settings == old(self).settings,
                self.state == old(self).state,
                self.created_at_ms == old(self).created_at_ms,
                self.countdown_start_ms == old(self).countdown_start_ms,
                pred == is_player(player_id),
                forall|j: int| 0 <= j < i ==> self.players@[j] != player_id,
            decreases self.players@.len() - i,
        {
            if self.players[i] == player_id {
                proof {
                    lemma_first_index(self.players@, pred);
                }
                let ghost before = self.players@;
                self.players.remove(i);
                proof {
                    let after = self.players@;
                    if old(self).wf() {
                    assert forall|a: int, b: int| 0 <= a < b < after.len() implies after[a]
                        != after[b] by {
                        let a2 = if a < i {
                            a
                        } else {
                            a + 1
                        };
                        let b2 = if b < i {
                            b
                        } else {
                            b + 1
                        };
                        assert(after[a] == before[a2] && after[b] == before[b2]);
                    }
                    }
                }
                if self.host == player_id && self.players.len() > 0 {
                    self.host = self.players[0];
                    assert(self.players@.contains(self.host)) by {
                        assert(self.players@[0] == self.host);
                    }
                } else {
                    proof {
                        if self.players@.len() > 0 && before.contains(self.host) {
                        let k = choose|k: int| 0 <= k < before.len() && before[k] == self.host;
                        assert(k != i);
                        if k < i {
                            assert(self.players@[k] == self.host);
                        } else {
                            assert(self.players@[k - 1] == self.host);
                        }
                        }
                    }
                }
                return true;
            }
            i += 1;
        }
        proof {
            lemma_first_index(self.players@, pred);
            assert(!self.players@.contains(player_id));
        }
        false
    }

    /// Enters the countdown at `now_ms` if the lobby is waiting.
    pub fn start_countdown(&mut self, now_ms: u64)
        ensures
            old(self).state == LobbyState::Waiting ==> final(self).state == LobbyState::Countdown
                && final(self).countdown_start_ms == Some(now_ms),
            old(self).state != LobbyState::Waiting ==> final(self).state == old(self).state
                && final(self).countdown_start_ms == old(self).countdown_start_ms,
            final(self).id == old(self).id,
            final(self).settings == old(self).settings,
            final(self).players == old(self).players,
            final(self).host == old(self).host,
            final(self).created_at_ms == old(self).created_at_ms,
    {
        if self.state == LobbyState::Waiting {
            self.state = LobbyState::Countdown;
            self.countdown_start_ms = Some(now_ms);
        }
    }

    /// Returns to waiting if the lobby is counting down.
    pub fn cancel_countdown(&mut self)
        ensures
            old(self).state == LobbyState::Countdown ==> final(self).state == LobbyState::Waiting
                && final(self).countdown_start_ms is None,
            old(self).state != LobbyState::Countdown ==> final(self).state == old(self).state
                && final(self).countdown_start_ms == old(self).countdown_start_ms,
            final(self).id == old(self).id,
            final(self).settings == old(self).settings,
            final(self).players == old(self).players,
            final(self).host == old(self).host,
            final(self).created_at_ms == old(self).created_at_ms,
    {
        if self.state == LobbyState::Countdown {
            self.state = LobbyState::Waiting;
            self.countdown_start_ms = None;
        }
    }

    /// Seconds left in the countdown at `now_ms`: the configured seconds minus
    /// the whole seconds elapsed (reduced to a byte), at least zero; `None`
    /// outside a countdown.
    pub fn countdown_remaining(&self, now_ms: u64) -> (r: Option<u8>)
        ensures
            r == (match (self.state, self.countdown_start_ms) {
                (LobbyState::Countdown, Some(start)) => {
                    let e = elapsed_secs_byte(start, now_ms);
                    Some(
                        if self.settings.countdown_secs >= e {
                            (self.settings.countdown_secs - e) as u8
                        } else {
                            0u8
                        },
                    )
                },
                _ => None,
            }),
    {
        match (self.state, self.countdown_start_ms) {
            (LobbyState::Countdown, Some(start)) => {
                let elapsed_ms = now_ms.saturating_sub(start);
                let elapsed = ((elapsed_ms / 1000) % 256) as u8;
                Some(self.settings.countdown_secs.saturating_sub(elapsed))
            },
            _ => None,
        }
    }

    pub fn to_info(&self) -> (info: LobbyInfo)
        ensures
            info.id == self.id,
            info.name == self.settings.name,
            info.player_count == (self.players@.len() % 256) as u8,
            info.max_players == self.settings.max_players,
            info.has_password == (self.settings.password is Some),
            info.map_name == self.settings.map_name,
            info.game_mode == self.settings.game_mode,
    {
        LobbyInfo {
            id: self.id,
            name: self.settings.name.clone(),
            player_count: self.player_count(),
            max_players: self.settings.max_players,
            has_password: self.has_password(),
            map_name: self.settings.map_name.clone(),
            game_mode: self.settings.game_mode.clone(),
        }
    }
}

fn vec_contains(v: &Vec<PlayerId>, x: PlayerId) -> (r: bool)
    ensures
        r == v@.contains(x),
{
    let mut i: usize = 0;
    while i < v.len()
        invariant
            i <= v@.len(),
            forall|j: int| 0 <= j < i ==> v@[j] != x,
        decreases v@.len() - i,
    {
        if v[i] == x {
            return true;
        }
        i += 1;
    }
    false
}

// ---------------------------------------------------------------------------
// Matchmaking queue
// ---------------------------------------------------------------------------

/// First-come, first-served matchmaking queue.
#[derive(Debug)]
pub struct Queue {
    players: VecDeque<(PlayerId, u64)>,
    target_lobby_size: u8,
}

/// Position of `p` in the queue entries, if queued.
pub open spec fn queue_index(entries: Seq<(PlayerId, u64)>, p: PlayerId) -> Option<int> {
    first_index(entries, entry_of(p))
}

impl Queue {
    /// Queued players with their enqueue times, in arrival order.
    pub closed spec fn entries(&self) -> Seq<(PlayerId, u64)> {
        self.players@
    }

    pub closed spec fn target(&self) -> u8 {
        self.target_lobby_size
    }

    /// No player is queued twice.
    pub closed spec fn wf(&self) -> bool {
        distinct_players(self.players@)
    }

    pub fn new(target_lobby_size: u8) -> (q: Self)
        ensures
            q.entries() == Seq::<(PlayerId, u64)>::empty(),
            q.target() == target_lobby_size,
            q.wf(),
    {
        Queue { players: VecDeque::new(), target_lobby_size }
    }

    fn find(&self, player_id: PlayerId) -> (r: Option<usize>)
        ensures
            r matches Some(i) ==> queue_index(self.entries(), player_id) == Some(i as int) && i
                < self.entries().len(),
            r is None ==> queue_index(self.entries(), player_id) is None,
    {
        let ghost pred = entry_of(player_id);
        proof {
            lemma_first_index(self.players@, pred);
        }
        let mut i: usize = 0;
        while i < self.players.len()
            invariant
                i <= self.players@.len(),
                pred == entry_of(player_id),
                forall|j: int| 0 <= j < i ==> !pred(#[trigger] self.players@[j]),
                match first_index(self.players@, pred) {
                    Some(k) => 0 <= k < self.players@.len() && pred(self.players@[k]) && forall|
                        j: int,
                    | 0 <= j < k ==> !pred(#[trigger] self.players@[j]),
                    None => forall|j: int|
                        0 <= j < self.players@.len() ==> !pred(#[trigger] self.players@[j]),
                },
            decreases self.players@.len() - i,
        {
            if self.players[i].0 == player_id {
                assert(pred(self.players@[i as int]));
                return Some(i);
            }
            i += 1;
        }
        None
    }

    /// Appends `player_id` (queued at `now_ms`) unless already queued.
    pub fn enqueue(&mut self, player_id: PlayerId, now_ms: u64) -> (added: bool)
        ensures
            final(self).target() == old(self).target(),
            added == (queue_index(old(self).entries(), player_id) is None),
            added ==> final(self).entries() == old(self).entries().push((player_id, now_ms)),
            !added ==> final(self).entries() == old(self).entries(),
            old(self).wf() ==> final(self).wf(),
    {
        if self.find(player_id).is_some() {
            return false;
        }
        let ghost before = self.players@;
        self.players.push_back((player_id, now_ms));
        proof {
            if distinct_players(before) {
                lemma_enqueue_keeps_players_distinct(before, player_id, now_ms);
            }
        }
        true
    }

    /// Takes `player_id` out of the queue.
    pub fn dequeue(&mut self, player_id: PlayerId) -> (removed: bool)
        ensures
            final(self).target() == old(self).target(),
            removed == (queue_index(old(self).entries(), player_id) is Some),
            final(self).entries() == match queue_index(old(self).entries(), player_id) {
                Some(i) => old(self).entries().remove(i),
                None => old(self).entries(),
            },
            old(self).wf() ==> final(self).wf(),
            old(self).wf() ==> queue_index(final(self).entries(), player_id) is None,
    {
        proof {
            lemma_first_index(self.players@, entry_of(player_id));
        }
        match self.find(player_id) {
            Some(i) => {
                let ghost before = self.players@;
                self.players.remove(i);
                proof {
                    let after = self.players@;
                    lemma_first_index(after, entry_of(player_id));
                    if distinct_players(before) {
                        assert forall|a: int, b: int| 0 <= a < b < after.len() implies after[a].0
                            != after[b].0 by {
                            let a2 = if a < i { a } else { a + 1 };
                            let b2 = if b < i { b } else { b + 1 };
                            assert(after[a] == before[a2] && after[b] == before[b2]);
                        }
                        if let Some(k) = first_index(after, entry_of(player_id)) {
                            let k2 = if k < i { k } else { k + 1 };
                            assert(after[k] == before[k2]);
                            assert(before[i as int].0 == player_id);
                        }
                    }
                }
                true
            },
            None => false,
        }
    }

    /// One-based place of `player_id` in the queue (the index reduced to 32 bits, plus one).
    pub fn position(&self, player_id: PlayerId) -> (r: Option<u32>)
        requires
            queue_index(self.entries(), player_id) matches Some(i) ==> i % 0x1_0000_0000
                < u32::MAX,
        ensures
            r == (match queue_index(self.entries(), player_id) {
                Some(i) => Some((i % 0x1_0000_0000 + 1) as u32),
                None => None,
            }),
    {
        match self.find(player_id) {
            Some(p) => {
                let low = p as u32;
                let wide = p as u64;
                assert(low as u64 == wide % 0x1_0000_0000u64) by (bit_vector)
                    requires
                        low == p as u32,
                        wide == p as u64,
                ;
                Some(low + 1)
            },
            None => None,
        }
    }

    /// A minute of waiting per full lobby ahead of the player.
    pub fn estimated_wait_secs(&self, player_id: PlayerId) -> (r: Option<u32>)
        requires
            queue_index(self.entries(), player_id) matches Some(i) ==> {
                &&& i % 0x1_0000_0000 < u32::MAX
                &&& self.target() > 0
                &&& ((i % 0x1_0000_0000 + 1) / (self.target() as int)) * 60 <= u32::MAX
            },
        ensures
            r == (match queue_index(self.entries(), player_id) {
                Some(i) => Some((((i % 0x1_0000_0000 + 1) / (self.target() as int)) * 60) as u32),
                None => None,
            }),
    {
        match self.position(player_id) {
            Some(pos) => {
                let matches_needed = pos / self.target_lobby_size as u32;
                Some(matches_needed * 60)
            },
            None => None,
        }
    }

    /// When enough players wait, removes the first `target` of them and returns their ids.
    pub fn pop_match(&mut self) -> (r: Option<Vec<PlayerId>>)
        ensures
            final(self).target() == old(self).target(),
            old(self).entries().len() >= old(self).target() ==> {
                &&& r is Some
                &&& r->0@ == old(self).entries().take(old(self).target() as int).map_values(
                    |e: (PlayerId, u64)| e.0,
                )
                &&& final(self).entries() == old(self).entries().skip(old(self).target() as int)
            },
            old(self).entries().len() < old(self).target() ==> r is None && final(self).entries()
                == old(self).entries(),
            old(self).wf() ==> final(self).wf(),
    {
        if self.players.len() >= self.target_lobby_size as usize {
            let ghost orig = self.players@;
            let n = self.target_lobby_size as usize;
            let mut ids: Vec<PlayerId> = Vec::new();
            let mut i: usize = 0;
            while i < n
                invariant
                    n == old(self).target_lobby_size,
                    n <= orig.len(),
                    i <= n,
                    self.target_lobby_size == old(self).target_lobby_size,
                    self.players@ == orig.skip(i as int),
                    ids@ == orig.take(i as int).map_values(|e: (PlayerId, u64)| e.0),
                decreases n - i,
            {
                let (id, _) = self.players.pop_front().unwrap();
                assert(orig.skip(i as int)[0] == orig[i as int]);
                assert(orig.skip(i as int).subrange(1, orig.skip(i as int).len() as int) =~= orig.skip(
                    i + 1,
                ));
                ids.push(id);
                assert(ids@ =~= orig.take(i + 1).map_values(|e: (PlayerId, u64)| e.0));
                i += 1;
            }
            Some(ids)
        } else {
            None
        }
    }

    pub fn len(&self) -> (n: usize)
        ensures
            n == self.entries().len(),
    {
        self.players.len()
    }

    pub fn is_empty(&self) -> (r: bool)
        ensures
            r == (self.entries().len() == 0),
    {
        self.players.len() == 0
    }
}

// ---------------------------------------------------------------------------
// Lobby manager
// ---------------------------------------------------------------------------

/// Matches the lobby with id `id`.
pub open spec fn lobby_with_id(id: LobbyId) -> spec_fn(Lobby) -> bool {
    |l: Lobby| l.id == id
}

/// `info` describes `lobby`.
pub open spec fn info_matches(info: LobbyInfo, lobby: Lobby) -> bool {
    &&& info.id == lobby.id
    &&& info.name == lobby.settings.name
    &&& info.player_count == (lobby.players@.len() % 256) as u8
    &&& info.max_players == lobby.settings.max_players
    &&& info.has_password == (lobby.settings.password is Some)
    &&& info.map_name == lobby.settings.map_name
    &&& info.game_mode == lobby.settings.game_mode
}

/// `b` is `a` with only its player list (and possibly its host) changed.
pub open spec fn same_lobby_but_players(a: Lobby, b: Lobby) -> bool {
    &&& a.id == b.id
    &&& a.settings == b.settings
    &&& a.state == b.state
    &&& a.created_at_ms == b.created_at_ms
    &&& a.countdown_start_ms == b.countdown_start_ms
}

/// `m` with `p` mapped to `id`: the existing entry of `p` updated in place, or a new one appended.
pub open spec fn put_membership(m: Seq<(PlayerId, LobbyId)>, p: PlayerId, id: LobbyId) -> Seq<
    (PlayerId, LobbyId),
> {
    match first_index(m, entry_of_member(p)) {
        Some(i) => m.update(i, (p, id)),
        None => m.push((p, id)),
    }
}

/// Matches the membership entry of player `p`.
pub open spec fn entry_of_member(p: PlayerId) -> spec_fn((PlayerId, LobbyId)) -> bool {
    |e: (PlayerId, LobbyId)| e.0 == p
}

/// A player with no lobby who joins one is then found in it: the entry
/// appended for them is the one a lookup finds.
pub proof fn lemma_joined_player_is_found(m: Seq<(PlayerId, LobbyId)>, p: PlayerId, id: LobbyId)
    requires
        first_index(m, entry_of_member(p)) is None,
    ensures
        first_index(m.push((p, id)), entry_of_member(p)) == Some(m.len() as int),
        m.push((p, id))[m.len() as int].1 == id,
{
    assert(m.push((p, id)).drop_last() =~= m);
}

/// The players of `entries` are distinct.
pub open spec fn distinct_players(entries: Seq<(PlayerId, u64)>) -> bool {
    forall|i: int, j: int| 0 <= i < j < entries.len() ==> entries[i].0 != entries[j].0
}

/// No player waits in the queue twice: appending a player who is not queued
/// keeps the queued players distinct.
pub proof fn lemma_enqueue_keeps_players_distinct(entries: Seq<(PlayerId, u64)>, p: PlayerId, now_ms: u64)
    requires
        distinct_players(entries),
        queue_index(entries, p) is None,
    ensures
        distinct_players(entries.push((p, now_ms))),
{
    lemma_first_index(entries, entry_of(p));
    let e = entries.push((p, now_ms));
    assert forall|i: int, j: int| 0 <= i < j < e.len() implies e[i].0 != e[j].0 by {
        if j == entries.len() {
            assert(!entry_of(p)(entries[i]));
        }
    }
}

/// Whatever `m` held for `p`, after `p` is mapped to `id` a lookup of `p`
/// finds `id`.
pub proof fn lemma_put_membership_found(m: Seq<(PlayerId, LobbyId)>, p: PlayerId, id: LobbyId)
    ensures
        first_index(put_membership(m, p, id), entry_of_member(p)) matches Some(k)
            && put_membership(m, p, id)[k].1 == id,
{
    lemma_first_index(m, entry_of_member(p));
    match first_index(m, entry_of_member(p)) {
        Some(i) => {
            let m2 = m.update(i, (p, id));
            assert(put_membership(m, p, id) == m2);
            lemma_first_index(m2, entry_of_member(p));
            assert(m2[i] == (p, id));
            assert(entry_of_member(p)(m2[i]));
            match first_index(m2, entry_of_member(p)) {
                Some(k) => {
                    if k < i {
                        assert(m2[k] == m[k]);
                        assert(!entry_of_member(p)(m[k]));
                    }
                    assert(k == i);
                },
                None => {
                    assert(!entry_of_member(p)(m2[i]));
                },
            }
        },
        None => {
            lemma_joined_player_is_found(m, p, id);
        },
    }
}

/// `lobbies` holds a public lobby with id `id` that is still waiting for players.
pub open spec fn has_open_lobby(lobbies: Seq<Lobby>, id: LobbyId) -> bool {
    exists|j: int|
        0 <= j < lobbies.len() && #[trigger] lobbies[j].id == id && lobbies[j].state
            == LobbyState::Waiting && lobbies[j].settings.public
}

/// The lobby browser only offers lobbies that can be joined: every listed
/// lobby is public and still waiting, and it is one of the manager's lobbies.
pub proof fn lemma_listed_lobbies_are_open(lobbies: Seq<Lobby>, infos: Seq<LobbyInfo>)
    requires
        infos.len() == lobbies.filter(|l: Lobby| listed(l)).len(),
        forall|k: int|
            0 <= k < infos.len() ==> info_matches(
                #[trigger] infos[k],
                lobbies.filter(|l: Lobby| listed(l))[k],
            ),
    ensures
        forall|k: int| 0 <= k < infos.len() ==> has_open_lobby(lobbies, #[trigger] infos[k].id),
{
    let keep = |l: Lobby| listed(l);
    let f = lobbies.filter(keep);
    assert forall|k: int| 0 <= k < infos.len() implies has_open_lobby(lobbies, #[trigger] infos[k].id) by {
        lobbies.lemma_filter_pred(keep, k);
        assert(f.contains(f[k]));
        lobbies.lemma_filter_contains_rev(keep, f[k]);
        let j = choose|j: int| 0 <= j < lobbies.len() && lobbies[j] == f[k];
        assert(lobbies[j].id == infos[k].id);
    }
}

/// Every lobby of `ls` holds distinct players.
pub open spec fn lobbies_wf(ls: Seq<Lobby>) -> bool {
    forall|i: int| 0 <= i < ls.len() ==> (#[trigger] ls[i]).wf()
}

/// Public lobbies that are still waiting for players are listed.
pub open spec fn listed(l: Lobby) -> bool {
    l.settings.public && l.state == LobbyState::Waiting
}

/// The lobbies of a server and which lobby each player is in.
#[derive(Debug)]
pub struct LobbyManager {
    lobbies: Vec<Lobby>,
    player_lobbies: Vec<(PlayerId, LobbyId)>,
    next_lobby_id: LobbyId,
}

fn find_lobby(lobbies: &Vec<Lobby>, id: LobbyId) -> (r: Option<usize>)
    ensures
        r matches Some(i) ==> first_index(lobbies@, lobby_with_id(id)) == Some(i as int) && i
            < lobbies@.len() && lobbies@[i as int].id == id,
        r is None ==> first_index(lobbies@, lobby_with_id(id)) is None,
{
    let ghost pred = lobby_with_id(id);
    let mut i: usize = 0;
    while i < lobbies.len()
        invariant
            i <= lobbies@.len(),
            pred == lobby_with_id(id),
            forall|j: int| 0 <= j < i ==> !pred(#[trigger] lobbies@[j]),
        decreases lobbies@.len() - i,
    {
        if lobbies[i].id == id {
            proof {
                lemma_first_index(lobbies@, pred);
                match first_index(lobbies@, pred) {
                    Some(k) => {
                        if k > i {
                            assert(pred(lobbies@[i as int]));
                        }
                    },
                    None => {
                        assert(pred(lobbies@[i as int]));
                    },
                }
            }
            return Some(i);
        }
        i += 1;
    }
    proof {
        lemma_first_index(lobbies@, pred);
    }
    None
}

fn find_member(members: &Vec<(PlayerId, LobbyId)>, p: PlayerId) -> (r: Option<usize>)
    ensures
        r matches Some(i) ==> first_index(members@, entry_of_member(p)) == Some(i as int) && i
            < members@.len() && members@[i as int].0 == p,
        r is None ==> first_index(members@, entry_of_member(p)) is None,
{
    let ghost pred = entry_of_member(p);
    let mut i: usize = 0;
    while i < members.len()
        invariant
            i <= members@.len(),
            pred == entry_of_member(p),
            forall|j: int| 0 <= j < i ==> !pred(#[trigger] members@[j]),
        decreases members@.len() - i,
    {
        if members[i].0 == p {
            proof {
                lemma_first_index(members@, pred);
                match first_index(members@, pred) {
                    Some(k) => {
                        if k > i {
                            assert(pred(members@[i as int]));
                        }
                    },
                    None => {
                        assert(pred(members@[i as int]));
                    },
                }
            }
            return Some(i);
        }
        i += 1;
    }
    proof {
        lemma_first_index(members@, pred);
    }
    None
}

impl LobbyManager {
    /// The lobbies, in creation order.
    pub closed spec fn lobbies(&self) -> Seq<Lobby> {
        self.lobbies@
    }

    /// Player -> lobby entries.
    pub closed spec fn memberships(&self) -> Seq<(PlayerId, LobbyId)> {
        self.player_lobbies@
    }

    pub closed spec fn next_id(&self) -> LobbyId {
        self.next_lobby_id
    }

    /// Lobby ids are distinct and below the next id to be handed out.
    pub closed spec fn wf(&self) -> bool {
        &&& forall|i: int| 0 <= i < self.lobbies@.len() ==> (#[trigger] self.lobbies@[i]).id < self.next_lobby_id
        &&& forall|i: int, j: int|
            0 <= i < j < self.lobbies@.len() ==> (#[trigger] self.lobbies@[i]).id != (#[trigger] self.lobbies@[j]).id
    }

    pub fn new() -> (m: Self)
        ensures
            m.lobbies() == Seq::<Lobby>::empty(),
            m.memberships() == Seq::<(PlayerId, LobbyId)>::empty(),
            m.next_id() == 0,
            m.wf(),
    {
        LobbyManager { lobbies: Vec::new(), player_lobbies: Vec::new(), next_lobby_id: 0 }
    }

    /// Opens a lobby hosted by `host` under the next lobby id and records the
    /// host as its member.
    pub fn create_lobby(&mut self, host: PlayerId, settings: LobbySettings, now_ms: u64) -> (id:
        LobbyId)
        requires
            old(self).next_id() < u64::MAX,
        ensures
            id == old(self).next_id(),
            final(self).next_id() == old(self).next_id() + 1,
            final(self).lobbies().len() == old(self).lobbies().len() + 1,
            final(self).lobbies().drop_last() == old(self).lobbies(),
            ({
                let l = final(self).lobbies().last();
                &&& l.wf()
                &&& l.host_present()
                &&& l.id == id
                &&& l.settings == settings
                &&& l.state == LobbyState::Waiting
                &&& l.players@ == seq![host]
                &&& l.host == host
                &&& l.created_at_ms == now_ms
                &&& l.countdown_start_ms is None
            }),
            final(self).memberships() == put_membership(old(self).memberships(), host, id),
            first_index(final(self).memberships(), entry_of_member(host)) matches Some(k)
                && final(self).memberships()[k].1 == id,
            old(self).wf() ==> final(self).wf() && first_index(
                final(self).lobbies(),
                lobby_with_id(id),
            ) == Some(old(self).lobbies().len() as int),
    {
        let id = self.next_lobby_id;
        self.next_lobby_id += 1;
        let lobby = Lobby::new(id, host, settings, now_ms);
        let ghost before = self.lobbies@;
        self.lobbies.push(lobby);
        assert(self.lobbies@.drop_last() =~= before);
        self.put_member(host, id);
        proof {
            lemma_put_membership_found(old(self).memberships(), host, id);
            let ls = self.lobbies@;
            lemma_first_index(ls, lobby_with_id(id));
            if old(self).wf() {
                assert(forall|j: int| 0 <= j < before.len() ==> #[trigger] ls[j] == before[j]);
                assert(ls[before.len() as int].id == id);
                if let Some(f) = first_index(ls, lobby_with_id(id)) {
                    if f < before.len() {
                        assert(ls[f].id == before[f].id);
                    }
                }
            }
        }
        id
    }

    fn put_member(&mut self, p: PlayerId, id: LobbyId)
        ensures
            final(self).memberships() == put_membership(old(self).memberships(), p, id),
            final(self).lobbies() == old(self).lobbies(),
            final(self).next_id() == old(self).next_id(),
    {
        match find_member(&self.player_lobbies, p) {
            Some(i) => {
                self.player_lobbies.set(i, (p, id));
            },
            None => {
                self.player_lobbies.push((p, id));
            },
        }
    }

    /// Adds `player_id` to the lobby `lobby_id` if they are in no lobby, the
    /// lobby exists, is not full, and the password matches when one is set.
    pub fn join_lobby(&mut self, lobby_id: LobbyId, player_id: PlayerId, password: Option<&str>) -> (r:
        Result<(), &'static str>)
        ensures
            lobbies_wf(old(self).lobbies()) ==> lobbies_wf(final(self).lobbies()),
            old(self).wf() ==> final(self).wf(),
            final(self).next_id() == old(self).next_id(),
            match first_index(old(self).memberships(), entry_of_member(player_id)) {
                Some(_) => r == Err::<(), &'static str>("Already in a lobby") && final(self).lobbies()
                    == old(self).lobbies() && final(self).memberships() == old(self).memberships(),
                None => match first_index(old(self).lobbies(), lobby_with_id(lobby_id)) {
                    None => r == Err::<(), &'static str>("Lobby not found") && final(self).lobbies()
                        == old(self).lobbies() && final(self).memberships() == old(self).memberships(),
                    Some(i) => {
                        let l = old(self).lobbies()[i];
                        if l.players@.len() >= l.settings.max_players {
                            r == Err::<(), &'static str>("Lobby is full") && final(self).lobbies()
                                == old(self).lobbies() && final(self).memberships() == old(self).memberships()
                        } else if l.settings.password is Some && !(password is Some
                            && password->0@ == l.settings.password->0@) {
                            r == Err::<(), &'static str>("Invalid password") && final(self).lobbies()
                                == old(self).lobbies() && final(self).memberships() == old(self).memberships()
                        } else {
                            let nl = final(self).lobbies()[i];
                            &&& r is Ok
                            &&& final(self).lobbies().len() == old(self).lobbies().len()
                            &&& forall|j: int|
                                0 <= j < old(self).lobbies().len() && j != i ==> final(self).lobbies()[j] == old(self).lobbies()[j]
                            &&& same_lobby_but_players(nl, l)
                            &&& nl.host == l.host
                            &&& nl.players@ == (if l.players@.contains(player_id) {
                                l.players@
                            } else {
                                l.players@.push(player_id)
                            })
                            &&& final(self).memberships() == old(self).memberships().push(
                                (player_id, lobby_id),
                            )
                        }
                    },
                },
            },
    {
        if find_member(&self.player_lobbies, player_id).is_some() {
            return Err("Already in a lobby");
        }
        let i = match find_lobby(&self.lobbies, lobby_id) {
            Some(i) => i,
            None => {
                return Err("Lobby not found");
            },
        };
        if self.lobbies[i].is_full() {
            return Err("Lobby is full");
        }
        match &self.lobbies[i].settings.password {
            Some(required) => {
                match password {
                    Some(provided) => {
                        let given = provided.to_owned();
                        if !(given == *required) {
                            return Err("Invalid password");
                        }
                    },
                    None => {
                        return Err("Invalid password");
                    },
                }
            },
            None => {},
        }
        let ghost before = self.lobbies@;
        self.lobbies[i].add_player(player_id);
        proof {
            if lobbies_wf(before) {
                assert forall|j: int|
                    0 <= j < self.lobbies@.len() implies (#[trigger] self.lobbies@[j]).wf() by {
                    if j != i {
                        assert(self.lobbies@[j] == before[j]);
                    }
                }
            }
            assert forall|j: int| 0 <= j < self.lobbies@.len() implies (#[trigger] self.lobbies@[j]).id
                == before[j].id by {
                if j != i {
                    assert(self.lobbies@[j] == before[j]);
                }
            }
        }
        self.player_lobbies.push((player_id, lobby_id));
        Ok(())
    }

    /// Takes `player_id` out of their lobby, closing the lobby when it becomes
    /// empty, and returns the lobby id. `None` when the player is in no lobby
    /// or their lobby no longer exists (their membership is dropped either way).
    pub fn leave_lobby(&mut self, player_id: PlayerId) -> (r: Option<LobbyId>)
        ensures
            lobbies_wf(old(self).lobbies()) ==> lobbies_wf(final(self).lobbies()),
            old(self).wf() ==> final(self).wf(),
            final(self).next_id() == old(self).next_id(),
            match first_index(old(self).memberships(), entry_of_member(player_id)) {
                None => r is None && final(self).lobbies() == old(self).lobbies() && final(self).memberships() == old(self).memberships(),
                Some(k) => {
                    let id = old(self).memberships()[k].1;
                    &&& final(self).memberships() == old(self).memberships().remove(k)
                    &&& match first_index(old(self).lobbies(), lobby_with_id(id)) {
                        None => r is None && final(self).lobbies() == old(self).lobbies(),
                        Some(i) => {
                            let l = old(self).lobbies()[i];
                            let remaining = without_player(l.players@, player_id);
                            &&& r == Some(id)
                            &&& remaining.len() == 0 ==> final(self).lobbies() == old(self).lobbies().remove(i)
                            &&& remaining.len() > 0 ==> {
                                let nl = final(self).lobbies()[i];
                                &&& final(self).lobbies().len() == old(self).lobbies().len()
                                &&& forall|j: int|
                                    0 <= j < old(self).lobbies().len() && j != i ==> final(self).lobbies()[j] == old(self).lobbies()[j]
                                &&& same_lobby_but_players(nl, l)
                                &&& nl.players@ == remaining
                                &&& nl.host == (if l.host == player_id && l.players@.contains(
                                    player_id,
                                ) {
                                    remaining[0]
                                } else {
                                    l.host
                                })
                            }
                        },
                    }
                },
            },
    {
        let k = match find_member(&self.player_lobbies, player_id) {
            Some(k) => k,
            None => {
                return None;
            },
        };
        let (_, lobby_id) = self.player_lobbies.remove(k);
        let i = match find_lobby(&self.lobbies, lobby_id) {
            Some(i) => i,
            None => {
                return None;
            },
        };
        let ghost before = self.lobbies@;
        self.lobbies[i].remove_player(player_id);
        proof {
            if lobbies_wf(before) {
                assert forall|j: int|
                    0 <= j < self.lobbies@.len() implies (#[trigger] self.lobbies@[j]).wf() by {
                    if j != i {
                        assert(self.lobbies@[j] == before[j]);
                    }
                }
            }
            assert forall|j: int| 0 <= j < self.lobbies@.len() implies (#[trigger] self.lobbies@[j]).id
                == before[j].id by {
                if j != i {
                    assert(self.lobbies@[j] == before[j]);
                }
            }
        }
        if self.lobbies[i].is_empty() {
            let ghost mid = self.lobbies@;
            self.lobbies.remove(i);
            proof {
                assert(self.lobbies@ =~= before.remove(i as int)) by {
                    assert forall|j: int| 0 <= j < self.lobbies@.len() implies self.lobbies@[j]
                        == before.remove(i as int)[j] by {
                        if j < i {
                            assert(mid[j] == before[j]);
                        } else {
                            assert(mid[j + 1] == before[j + 1]);
                        }
                    }
                }
                if lobbies_wf(mid) {
                    assert forall|j: int|
                        0 <= j < self.lobbies@.len() implies (#[trigger] self.lobbies@[j]).wf() by {
                        if j < i {
                            assert(self.lobbies@[j] == mid[j]);
                        } else {
                            assert(self.lobbies@[j] == mid[j + 1]);
                        }
                    }
                }
            }
        }
        Some(lobby_id)
    }

    pub fn get(&self, lobby_id: LobbyId) -> (r: Option<&Lobby>)
        ensures
            match first_index(self.lobbies(), lobby_with_id(lobby_id)) {
                Some(i) => r == Some(&self.lobbies()[i]),
                None => r is None,
            },
    {
        match find_lobby(&self.lobbies, lobby_id) {
            Some(i) => Some(&self.lobbies[i]),
            None => None,
        }
    }

    pub fn get_mut(&mut self, lobby_id: LobbyId) -> (r: Option<&mut Lobby>)
        ensures
            final(self).next_id() == old(self).next_id(),
            final(self).memberships() == old(self).memberships(),
            match first_index(old(self).lobbies(), lobby_with_id(lobby_id)) {
                Some(i) => r is Some && *r->0 == old(self).lobbies()[i] && final(self).lobbies()
                    == old(self).lobbies().update(i, *final(r->0)),
                None => r is None && final(self).lobbies() == old(self).lobbies(),
            },
            old(self).wf() && (r matches Some(l) ==> final(l).id == lobby_id) ==> final(self).wf(),
    {
        proof {
            lemma_first_index(self.lobbies@, lobby_with_id(lobby_id));
        }
        match find_lobby(&self.lobbies, lobby_id) {
            Some(i) => Some(&mut self.lobbies[i]),
            None => None,
        }
    }

    /// The lobby `player_id` is in.
    pub fn player_lobby(&self, player_id: PlayerId) -> (r: Option<LobbyId>)
        ensures
            r == (match first_index(self.memberships(), entry_of_member(player_id)) {
                Some(k) => Some(self.memberships()[k].1),
                None => None,
            }),
    {
        match find_member(&self.player_lobbies, player_id) {
            Some(k) => Some(self.player_lobbies[k].1),
            None => None,
        }
    }

    /// Descriptions of the public lobbies still waiting for players, in creation order.
    pub fn list_public(&self) -> (r: Vec<LobbyInfo>)
        ensures
            r@.len() == self.lobbies().filter(|l: Lobby| listed(l)).len(),
            forall|k: int|
                0 <= k < r@.len() ==> info_matches(
                    #[trigger] r@[k],
                    self.lobbies().filter(|l: Lobby| listed(l))[k],
                ),
            forall|k: int| 0 <= k < r@.len() ==> has_open_lobby(self.lobbies(), #[trigger] r@[k].id),
    {
        let ghost keep = |l: Lobby| listed(l);
        let mut r: Vec<LobbyInfo> = Vec::new();
        let mut i: usize = 0;
        while i < self.lobbies.len()
            invariant
                i <= self.lobbies@.len(),
                keep == (|l: Lobby| listed(l)),
                r@.len() == self.lobbies@.take(i as int).filter(keep).len(),
                forall|k: int|
                    0 <= k < r@.len() ==> info_matches(
                        #[trigger] r@[k],
                        self.lobbies@.take(i as int).filter(keep)[k],
                    ),
            decreases self.lobbies@.len() - i,
        {
            proof {
                lemma_filter_take_step(self.lobbies@, keep, i as int);
            }
            let l = &self.lobbies[i];
            if l.settings.public && l.state == LobbyState::Waiting {
                let ghost before = r@;
                r.push(l.to_info());
                assert forall|k: int| 0 <= k < r@.len() implies info_matches(
                    #[trigger] r@[k],
                    self.lobbies@.take(i + 1).filter(keep)[k],
                ) by {
                    if k < before.len() {
                        assert(r@[k] == before[k]);
                    }
                }
            }
            i += 1;
        }
        assert(self.lobbies@.take(i as int) =~= self.lobbies@);
        proof {
            lemma_listed_lobbies_are_open(self.lobbies@, r@);
        }
        r
    }

    pub fn lobby_count(&self) -> (n: usize)
        ensures
            n == self.lobbies().len(),
    {
        self.lobbies.len()
    }
}

} // verus!
