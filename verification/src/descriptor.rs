use vstd::prelude::*;
use vstd::string::StringExecFns;

verus! {

/// Direction of a change-script. Only forward migrations are supported:
/// down-migrations and rollback are out of scope.
#[derive(Clone, Copy, PartialEq, Eq, Structural, Debug)]
pub enum MigrationKind {
    Up,
}

/// One immutable, versioned change-script.
///
/// `version` must be positive and unique within a registry. `description` is
/// a human-readable label with no semantic effect. `body` is an opaque
/// executable unit (one or more statements in the store's native query
/// language); the engine never parses it.
pub struct MigrationDescriptor {
    pub version: u64,
    pub description: String,
    pub kind: MigrationKind,
    pub body: String,
}

impl Clone for MigrationDescriptor {
    fn clone(&self) -> (r: Self)
        ensures
            r == self,
    {
        MigrationDescriptor {
            version: self.version,
            description: self.description.clone(),
            kind: self.kind,
            body: self.body.clone(),
        }
    }
}

/// The migrations this application ships: the initial schema, then its seed
/// data.
pub fn get_migrations() -> (r: Vec<MigrationDescriptor>)
    ensures
        r@.len() == 2,
        r@[0].version == 1,
        r@[0].kind == MigrationKind::Up,
        r@[0].description@ == "create_initial_tables"@,
        r@[0].body@ == "CREATE TABLE items (id INTEGER PRIMARY KEY, name TEXT NOT NULL);"@,
        r@[1].version == 2,
        r@[1].kind == MigrationKind::Up,
        r@[1].description@ == "create_initial_data"@,
        r@[1].body@ == "INSERT INTO items (name) VALUES ('default');"@,
{
    let mut r: Vec<MigrationDescriptor> = Vec::new();
    r.push(MigrationDescriptor {
        version: 1,
        description: String::from_str("create_initial_tables"),
        kind: MigrationKind::Up,
        body: String::from_str(
            "CREATE TABLE items (id INTEGER PRIMARY KEY, name TEXT NOT NULL);",
        ),
    });
    r.push(MigrationDescriptor {
        version: 2,
        description: String::from_str("create_initial_data"),
        kind: MigrationKind::Up,
        body: String::from_str("INSERT INTO items (name) VALUES ('default');"),
    });
    r
}

} // verus!
