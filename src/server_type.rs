use vstd::prelude::*;

verus! {

/// A supported server distribution.
#[derive(Clone, Copy, Debug, PartialEq, Eq, Structural)]
pub enum ServerType {
    Vanilla,
    PaperMC,
    Forge,
    Neoforge,
    Fabric,
    Spigot,
}

/// The display name of each distribution.
pub open spec fn display_name(t: ServerType) -> Seq<char> {
    match t {
        ServerType::Vanilla => "Vanilla"@,
        ServerType::PaperMC => "PaperMC"@,
        ServerType::Forge => "Forge"@,
        ServerType::Neoforge => "NeoForge"@,
        ServerType::Fabric => "FabricMC"@,
        ServerType::Spigot => "SpigotMC"@,
    }
}

/// Every distribution, in declaration order.
pub open spec fn all_server_types() -> Seq<ServerType> {
    seq![
        ServerType::Vanilla,
        ServerType::PaperMC,
        ServerType::Forge,
        ServerType::Neoforge,
        ServerType::Fabric,
        ServerType::Spigot,
    ]
}

impl ServerType {
    /// The stable display name of this distribution.
    pub fn as_str(&self) -> (r: &'static str)
        ensures
            r@ == display_name(*self),
    {
        match self {
            ServerType::Vanilla => "Vanilla",
            ServerType::PaperMC => "PaperMC",
            ServerType::Forge => "Forge",
            ServerType::Neoforge => "NeoForge",
            ServerType::Fabric => "FabricMC",
            ServerType::Spigot => "SpigotMC",
        }
    }

    /// All distributions, in declaration order, for selection lists.
    pub fn variants() -> (r: Vec<ServerType>)
        ensures
            r@ == all_server_types(),
    {
        let r = vec![
            ServerType::Vanilla,
            ServerType::PaperMC,
            ServerType::Forge,
            ServerType::Neoforge,
            ServerType::Fabric,
            ServerType::Spigot,
        ];
        assert(r@ =~= all_server_types());
        r
    }
}

} // verus!
