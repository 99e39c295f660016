//! Where the game's traffic runs: the connection that the game holds, and the
//! device that carries it.
use vstd::prelude::*;

use crate::capture::Ipv4;

verus! {

/// The port of the game's servers.
pub const GAME_PORT: u16 = 30031;

/// The name of the game's program.
pub const GAME_PROGRAM: &'static str = "HTGame.exe";

/// A device that packets can be captured from.
#[derive(Clone, Debug)]
pub struct CaptureDevice {
    pub name: String,
    pub description: String,
    pub ipv4: Vec<Ipv4>,
}

/// A connection that the game holds.
#[derive(Clone, Copy, Debug, PartialEq, Eq, Structural)]
pub struct GameNetwork {
    pub pid: u32,
    pub local_ip: Ipv4,
    pub remote_ip: Ipv4,
    pub remote_port: u16,
}

/// Why the game's traffic cannot be captured.
#[derive(Clone, Copy, Debug, PartialEq, Eq, Structural)]
pub enum NetworkFault {
    NoConnection,
    NoDevice,
}

impl NetworkFault {
    pub open spec fn message_text(self) -> Seq<char> {
        match self {
            NetworkFault::NoConnection => "未检测到 HTGame.exe 的活动连接"@,
            NetworkFault::NoDevice => "没有与游戏连接匹配的网卡"@,
        }
    }

    pub fn message(self) -> (out: &'static str)
        ensures
            out@ == self.message_text(),
    {
        match self {
            NetworkFault::NoConnection => "未检测到 HTGame.exe 的活动连接",
            NetworkFault::NoDevice => "没有与游戏连接匹配的网卡",
        }
    }
}

/// The first connection, from `i` on, to the port of the game's servers.
pub open spec fn first_to_game(connections: Seq<GameNetwork>, i: int) -> Option<int>
    decreases connections.len() - i,
{
    if i < 0 || i >= connections.len() {
        None
    } else if connections[i].remote_port == GAME_PORT {
        Some(i)
    } else {
        first_to_game(connections, i + 1)
    }
}

/// The connection that counts: the first one to the game's servers, or else the
/// first one.
pub open spec fn chosen(connections: Seq<GameNetwork>) -> Option<GameNetwork> {
    match first_to_game(connections, 0) {
        Some(i) => Some(connections[i]),
        None => if connections.len() > 0 {
            Some(connections[0])
        } else {
            None
        },
    }
}

/// The first device, from `i` on, that has the address.
pub open spec fn device_with(devices: Seq<CaptureDevice>, ip: Ipv4, i: int) -> Option<int>
    decreases devices.len() - i,
{
    if i < 0 || i >= devices.len() {
        None
    } else if devices[i].ipv4@.contains(ip) {
        Some(i)
    } else {
        device_with(devices, ip, i + 1)
    }
}

fn pick_connection(connections: &Vec<GameNetwork>) -> (r: Option<GameNetwork>)
    ensures
        r == chosen(connections@),
{
    let mut i: usize = 0;
    while i < connections.len()
        invariant
            i <= connections@.len(),
            first_to_game(connections@, 0) == first_to_game(connections@, i as int),
        decreases connections.len() - i,
    {
        if connections[i].remote_port == GAME_PORT {
            return Some(connections[i]);
        }
        i += 1;
    }
    if connections.len() > 0 {
        Some(connections[0])
    } else {
        None
    }
}

fn has_address(device: &CaptureDevice, ip: Ipv4) -> (r: bool)
    ensures
        r == device.ipv4@.contains(ip),
{
    let mut i: usize = 0;
    while i < device.ipv4.len()
        invariant
            i <= device.ipv4@.len(),
            forall|k: int| 0 <= k < i ==> #[trigger] device.ipv4@[k] != ip,
        decreases device.ipv4.len() - i,
    {
        if device.ipv4[i] == ip {
            assert(device.ipv4@[i as int] == ip);
            return true;
        }
        i += 1;
    }
    false
}

/// The device that carries the game's traffic, and the connection.
pub fn detect_game_device(devices: &Vec<CaptureDevice>, connections: &Vec<GameNetwork>) -> (r:
    Result<(usize, GameNetwork), NetworkFault>)
    ensures
        match (r, chosen(connections@)) {
            (Ok((at, network)), Some(c)) => network == c && device_with(devices@, c.local_ip, 0)
                == Some(at as int),
            (Err(NetworkFault::NoDevice), Some(c)) => device_with(devices@, c.local_ip, 0) is None,
            (Err(NetworkFault::NoConnection), None) => true,
            _ => false,
        },
{
    let network = match pick_connection(connections) {
        Some(network) => network,
        None => {
            return Err(NetworkFault::NoConnection);
        },
    };
    let mut i: usize = 0;
    while i < devices.len()
        invariant
            i <= devices@.len(),
            chosen(connections@) == Some(network),
            device_with(devices@, network.local_ip, 0) == device_with(
                devices@,
                network.local_ip,
                i as int,
            ),
        decreases devices.len() - i,
    {
        if has_address(&devices[i], network.local_ip) {
            return Ok((i, network));
        }
        i += 1;
    }
    Err(NetworkFault::NoDevice)
}

/// A connection to the game's servers is preferred to any other.
pub proof fn the_games_servers_come_first(connections: Seq<GameNetwork>, k: int)
    requires
        0 <= k < connections.len(),
        connections[k].remote_port == GAME_PORT,
    ensures
        chosen(connections) matches Some(c) && c.remote_port == GAME_PORT,
{
    lemma_first_to_game(connections, 0, k);
}

proof fn lemma_first_to_game(connections: Seq<GameNetwork>, i: int, k: int)
    requires
        0 <= i <= k < connections.len(),
        connections[k].remote_port == GAME_PORT,
    ensures
        first_to_game(connections, i) matches Some(at) && i <= at <= k
            && connections[at].remote_port == GAME_PORT,
    decreases k - i,
{
    if i < k && connections[i].remote_port != GAME_PORT {
        lemma_first_to_game(connections, i + 1, k);
    }
}

/// The connection that is taken is the first to the port of the game's servers; without
/// one, it is the first.
pub proof fn the_first_connection_to_the_game_is_taken(connections: Seq<GameNetwork>, k: int)
    requires
        0 <= k < connections.len(),
        forall|j: int| 0 <= j < k ==> (#[trigger] connections[j]).remote_port != 30031,
    ensures
        connections[k].remote_port == 30031 ==> chosen(connections) == Some(connections[k]),
        k == connections.len() - 1 && connections[k].remote_port != 30031 ==> chosen(connections)
            == Some(connections[0]),
{
    lemma_first_from(connections, k, 0);
}

proof fn lemma_first_from(connections: Seq<GameNetwork>, k: int, i: int)
    requires
        0 <= i <= k < connections.len(),
        forall|j: int| 0 <= j < k ==> (#[trigger] connections[j]).remote_port != 30031,
    ensures
        connections[k].remote_port == 30031 ==> first_to_game(connections, i) == Some(k),
        k == connections.len() - 1 && connections[k].remote_port != 30031 ==> first_to_game(
            connections,
            i,
        ) is None,
    decreases k - i,
{
    reveal_with_fuel(first_to_game, 2);
    if i < k {
        assert(connections[i].remote_port != 30031);
        lemma_first_from(connections, k, i + 1);
    }
}

/// The device that is taken is the first that has the address.
pub proof fn the_first_device_with_the_address_is_taken(
    devices: Seq<CaptureDevice>,
    ip: Ipv4,
    i: int,
    k: int,
)
    requires
        0 <= i <= k < devices.len(),
        devices[k].ipv4@.contains(ip),
        forall|j: int| i <= j < k ==> !(#[trigger] devices[j]).ipv4@.contains(ip),
    ensures
        device_with(devices, ip, i) == Some(k),
    decreases k - i,
{
    if i < k {
        assert(!devices[i].ipv4@.contains(ip));
        the_first_device_with_the_address_is_taken(devices, ip, i + 1, k);
    }
}

} // verus!
