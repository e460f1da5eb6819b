use vstd::prelude::*;
use vstd::string::{StrSliceExecFns, StringExecFns};
use crate::server_type::ServerType;

verus! {

/// A lower-case hexadecimal digit.
pub open spec fn is_lower_hex(c: char) -> bool {
    ('0' <= c && c <= '9') || ('a' <= c && c <= 'f')
}

/// The hyphenated lower-case text of a random (version 4) UUID, such as
/// `67e55044-10b1-426f-9247-bb680e5fe0c8`.
pub open spec fn is_v4_uuid_text(s: Seq<char>) -> bool {
    &&& s.len() == 36
    &&& forall|i: int|
        0 <= i < 36 ==> if i == 8 || i == 13 || i == 18 || i == 23 {
            #[trigger] s[i] == '-'
        } else {
            is_lower_hex(s[i])
        }
    &&& s[14] == '4'
}

/// `name` placed inside the directory `root`.
pub open spec fn join_path(root: Seq<char>, name: Seq<char>) -> Seq<char> {
    if root.len() == 0 || root.last() == '/' {
        root + name
    } else {
        root + seq!['/'] + name
    }
}

/// Instances created in one servers root with different ids get different
/// directories.
pub proof fn lemma_distinct_paths(root: Seq<char>, id1: Seq<char>, id2: Seq<char>)
    requires
        id1 != id2,
    ensures
        join_path(root, id1) != join_path(root, id2),
{
    let p1 = join_path(root, id1);
    let p2 = join_path(root, id2);
    let n: int = if root.len() == 0 || root.last() == '/' {
        root.len() as int
    } else {
        root.len() as int + 1
    };
    assert(p1.skip(n) =~= id1);
    assert(p2.skip(n) =~= id2);
}

/// Relies on uuid's `Uuid::new_v4` and its `Display`, which writes the
/// hyphenated lower-case form with the version digit `4`.
#[verifier::external_body]
fn new_uuid_text() -> (r: String)
    ensures
        is_v4_uuid_text(r@),
{
    uuid::Uuid::new_v4().to_string()
}

/// One managed server instance.
#[derive(Clone, Debug)]
pub struct ServerConfig {
    id: String,
    pub name: String,
    pub server_type: ServerType,
    pub version: String,
    pub port: u16,
    pub memory_mb: u32,
    path: String,
    jar_file: String,
}

impl ServerConfig {
    /// The id as text.
    pub closed spec fn spec_id(&self) -> Seq<char> {
        self.id@
    }

    /// The instance's directory as text.
    pub closed spec fn spec_path(&self) -> Seq<char> {
        self.path@
    }

    /// The label.
    pub closed spec fn spec_name(&self) -> String {
        self.name
    }

    /// The distribution.
    pub closed spec fn spec_server_type(&self) -> ServerType {
        self.server_type
    }

    /// The game version.
    pub closed spec fn spec_version(&self) -> String {
        self.version
    }

    /// The network port.
    pub closed spec fn spec_port(&self) -> u16 {
        self.port
    }

    /// The memory allocation in megabytes.
    pub closed spec fn spec_memory_mb(&self) -> u32 {
        self.memory_mb
    }

    /// The launch file's name as text.
    pub closed spec fn spec_jar_file(&self) -> Seq<char> {
        self.jar_file@
    }

    /// The record of a new instance with the given id, its directory inside
    /// `servers_root` named by the id, launched from `server.jar`.
    pub fn with_id(
        id: String,
        servers_root: &str,
        name: String,
        server_type: ServerType,
        version: String,
        port: u16,
        memory_mb: u32,
    ) -> (r: ServerConfig)
        ensures
            r.spec_id() == id@,
            r.spec_path() == join_path(servers_root@, id@),
            r.spec_jar_file() == "server.jar"@,
            r.spec_name() == name,
            r.spec_server_type() == server_type,
            r.spec_version() == version,
            r.spec_port() == port,
            r.spec_memory_mb() == memory_mb,
    {
        let mut path = String::from_str(servers_root);
        let n = servers_root.unicode_len();
        if n > 0 && servers_root.get_char(n - 1) != '/' {
            proof {
                reveal_strlit("/");
            }
            path.append("/");
        }
        path.append(id.as_str());
        ServerConfig {
            id,
            name,
            server_type,
            version,
            port,
            memory_mb,
            path,
            jar_file: String::from_str("server.jar"),
        }
    }

    /// A new instance record with a freshly generated random id; nothing is
    /// created on disk.
    pub fn new(
        name: String,
        server_type: ServerType,
        version: String,
        port: u16,
        memory_mb: u32,
        servers_root: &str,
    ) -> (r: ServerConfig)
        ensures
            is_v4_uuid_text(r.spec_id()),
            r.spec_path() == join_path(servers_root@, r.spec_id()),
            r.spec_jar_file() == "server.jar"@,
            r.spec_name() == name,
            r.spec_server_type() == server_type,
            r.spec_version() == version,
            r.spec_port() == port,
            r.spec_memory_mb() == memory_mb,
    {
        let id = new_uuid_text();
        ServerConfig::with_id(id, servers_root, name, server_type, version, port, memory_mb)
    }

    /// The id, fixed at creation.
    pub fn id(&self) -> (r: &str)
        ensures
            r@ == self.spec_id(),
    {
        self.id.as_str()
    }

    /// The instance's directory, fixed at creation.
    pub fn path(&self) -> (r: &str)
        ensures
            r@ == self.spec_path(),
    {
        self.path.as_str()
    }

    /// The file the instance is launched from.
    pub fn jar_file(&self) -> (r: &str)
        ensures
            r@ == self.spec_jar_file(),
    {
        self.jar_file.as_str()
    }
}

} // verus!
