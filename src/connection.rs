use vstd::prelude::*;

verus! {

/// A door pairing two node endpoints in different regions.
pub struct Connection {
    pub connection_type: String,
    pub description: Option<String>,
    pub nodes: Vec<ConnectionNode>,
}

/// The contents of one connection definition file.
pub struct ConnectionFile {
    pub schema: String,
    pub connections: Option<Vec<Connection>>,
}

/// One endpoint of a connection.
pub struct ConnectionNode {
    pub area: String,
    pub subarea: String,
    pub roomid: i64,
    pub nodeid: i64,
    pub position: String,
}

} // verus!
