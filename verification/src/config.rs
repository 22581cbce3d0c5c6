//! What the service is set up with.

use vstd::prelude::*;
use vstd::string::*;

verus! {

/// One configured database: the name under which requests reach it, and where
/// its files are kept.
#[derive(Debug)]
pub struct DatabaseConfig {
    pub name: String,
    pub path: String,
}

/// The database that is served: the first one that is configured. Without any,
/// it is the database `db`, kept under `db.kv`.
pub fn primary_database(databases: &Vec<DatabaseConfig>) -> (primary: DatabaseConfig)
    ensures
        databases.len() > 0 ==> primary.name@ == databases[0].name@ && primary.path@
            == databases[0].path@,
        databases.len() == 0 ==> primary.name@ == "db"@ && primary.path@ == "db.kv"@,
{
    if databases.len() == 0 {
        DatabaseConfig { name: String::from_str("db"), path: String::from_str("db.kv") }
    } else {
        DatabaseConfig { name: databases[0].name.clone(), path: databases[0].path.clone() }
    }
}

/// The socket address to listen on: the host, a colon, the port.
pub fn bind_address(host: &str, port: &str) -> (address: String)
    ensures
        address@ == host@ + ":"@ + port@,
{
    let mut address = String::from_str(host);
    address.append(":");
    address.append(port);
    address
}

} // verus!
