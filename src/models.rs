//! Plain data types shared with the server side.

use vstd::prelude::*;

verus! {

/// The relational database engines the store can run on.
#[derive(Debug, Clone, Copy, PartialEq, Eq, Structural)]
pub enum Driver {
    SQLite,
    PostgreSQL,
    MySQL,
}

/// What a driver name given in configuration denotes.
pub open spec fn driver_of(s: Seq<char>) -> Option<Driver> {
    if s == "sqlite"@ {
        Some(Driver::SQLite)
    } else if s == "postgres"@ || s == "postgresql"@ {
        Some(Driver::PostgreSQL)
    } else if s == "mysql"@ {
        Some(Driver::MySQL)
    } else {
        None
    }
}

impl Driver {
    /// Parses a configured driver name; unknown names are refused.
    pub fn from_str(d: &str) -> (r: Result<Driver, ()>)
        ensures
            match driver_of(d@) {
                Some(v) => r == Ok::<Driver, ()>(v),
                None => r is Err,
            },
    {
        let owned = d.to_string();
        let sqlite = "sqlite".to_string();
        let postgres = "postgres".to_string();
        let postgresql = "postgresql".to_string();
        let mysql = "mysql".to_string();
        if owned == sqlite {
            Ok(Driver::SQLite)
        } else if owned == postgres || owned == postgresql {
            Ok(Driver::PostgreSQL)
        } else if owned == mysql {
            Ok(Driver::MySQL)
        } else {
            Err(())
        }
    }

    /// The driver's display name.
    pub fn name(&self) -> (r: String)
        ensures
            r@ == match self {
                Driver::SQLite => "SQLite"@,
                Driver::PostgreSQL => "PostgreSQL"@,
                Driver::MySQL => "MySQL"@,
            },
    {
        match self {
            Driver::SQLite => "SQLite".to_string(),
            Driver::PostgreSQL => "PostgreSQL".to_string(),
            Driver::MySQL => "MySQL".to_string(),
        }
    }
}

impl Driver {
    /// The connection pool's (minimum, maximum) size: SQLite takes a single
    /// connection so that writes run one after another; other engines use the
    /// configured bounds.
    pub fn pool_bounds(&self, min_connections: u32, max_connections: u32) -> (r: (u32, u32))
        ensures
            r == match self {
                Driver::SQLite => (1u32, 1u32),
                _ => (min_connections, max_connections),
            },
    {
        match self {
            Driver::SQLite => (1, 1),
            _ => (min_connections, max_connections),
        }
    }
}

impl Default for Driver {
    fn default() -> (r: Driver)
        ensures
            r == Driver::SQLite,
    {
        Driver::SQLite
    }
}

} // verus!
