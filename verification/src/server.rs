//! Plain data types shared with the authoritative server: colours, texture
//! and sprite identifiers, per-worker and per-player snapshots, the server
//! map, client requests and the server's error codes.

use vstd::prelude::*;
use crate::map::Tile;

verus! {

/// A player colour.
#[derive(Clone, Copy, PartialEq, Eq, Structural, Debug)]
pub enum Color {
    Blue,
    Red,
    Green,
    Yellow,
}

/// A texture identifier, as the server names them.
#[derive(Clone, Copy, Debug, PartialEq, Eq, Structural, Hash)]
pub enum Texture {
    Wall,
    BlueWorkerIcon, BlueWorkerIdleDown, BlueWorkerIdleUp, BlueWorkerIdleLeft, BlueWorkerIdleRight,
    BlueWorkerWalkDown, BlueWorkerWalkUp, BlueWorkerWalkLeft, BlueWorkerWalkRight,
    RedWorkerIcon, RedWorkerIdleDown, RedWorkerIdleUp, RedWorkerIdleLeft, RedWorkerIdleRight,
    RedWorkerWalkDown, RedWorkerWalkUp, RedWorkerWalkLeft, RedWorkerWalkRight,
    GreenWorkerIcon, GreenWorkerIdleDown, GreenWorkerIdleUp, GreenWorkerIdleLeft,
    GreenWorkerIdleRight, GreenWorkerWalkDown, GreenWorkerWalkUp, GreenWorkerWalkLeft,
    GreenWorkerWalkRight,
    YellowWorkerIcon, YellowWorkerIdleDown, YellowWorkerIdleUp, YellowWorkerIdleLeft,
    YellowWorkerIdleRight, YellowWorkerWalkDown, YellowWorkerWalkUp, YellowWorkerWalkLeft,
    YellowWorkerWalkRight,
}

/// A texture or a spritesheet, used to transmit sprites between client and
/// server.
#[derive(Clone, Copy, Debug, PartialEq, Eq, Structural)]
pub enum Sprite {
    Sprite(Texture),
    SpriteSheet {
        /// Base texture.
        texture: Texture,
        /// Amount of frames in the spritesheet.
        frames: u16,
        /// Current frame of the spritesheet.
        current_frame: u16,
    },
}

impl Texture {
    /// Returns the texture as a [`Sprite`].
    pub fn as_server(&self) -> (r: Sprite)
        ensures
            r == Sprite::Sprite(*self),
    {
        Sprite::Sprite(*self)
    }
}

/// The per-worker snapshot sent to the server: a world position in integer
/// world units and the sprite to draw.
#[derive(Clone, Copy, Debug)]
pub struct ServerWorker {
    pub pos: (i64, i64),
    pub sprite: Sprite,
}

/// The per-player snapshot sent to the server.
#[derive(Clone, Debug)]
pub struct ServerPlayer {
    pub uuid: u64,
    pub ping: u16,
    pub workers: Vec<ServerWorker>,
    pub color: Color,
}

/// The map snapshot a server holds.
#[derive(Clone, Debug)]
pub struct ServerMap {
    pub tiles: Vec<Vec<Tile>>,
    pub width: usize,
    pub height: usize,
}

impl ServerMap {
    /// A fresh server map with no tiles in it yet.
    pub fn random() -> (r: ServerMap)
        ensures
            r.tiles@.len() == 0,
            r.width == 0,
            r.height == 0,
    {
        ServerMap { tiles: Vec::new(), width: 0, height: 0 }
    }
}

/// A ping request, carrying only its send time.
#[derive(Clone, Copy, PartialEq, Eq, Structural, Debug)]
pub struct Ping {
    pub timestamp: u64,
}

/// A request to change the player's name.
#[derive(Clone, Debug)]
pub struct Rename {
    pub name: String,
    pub timestamp: u64,
}

/// A request to create a game.
#[derive(Clone, Copy, PartialEq, Eq, Structural, Debug)]
pub struct CreateGame {
    pub timestamp: u64,
}

/// A request a client can send.
#[derive(Clone, Debug)]
pub enum ClientRequest {
    Ping(Ping),
    Rename(Rename),
    CreateGame(CreateGame),
}

impl ClientRequest {
    /// Returns true if the request should be rate limited: every request
    /// but a ping.
    pub fn ratelimited(&self) -> (r: bool)
        ensures
            r == !(self is Ping),
    {
        !matches!(self, ClientRequest::Ping(_))
    }

    /// Returns the timestamp of the request.
    pub fn timestamp(&self) -> (r: u64)
        ensures
            r == match self {
                ClientRequest::Ping(p) => p.timestamp,
                ClientRequest::Rename(p) => p.timestamp,
                ClientRequest::CreateGame(p) => p.timestamp,
            },
    {
        match self {
            ClientRequest::Ping(p) => p.timestamp,
            ClientRequest::Rename(p) => p.timestamp,
            ClientRequest::CreateGame(p) => p.timestamp,
        }
    }
}

/// Why the server refused a request.
#[derive(Clone, Copy, PartialEq, Eq, Structural, Debug)]
pub enum ErrorCode {
    /// The username contains invalid characters.
    UsernameInvalid,
    /// The username is too long.
    UsernameTooLong,
    /// Sent request too fast.
    Ratelimited,
    AlreadyInGame,
}

} // verus!
