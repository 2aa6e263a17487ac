//! Artifacts of rack update repositories.

use vstd::prelude::*;

verus! {

/// The kinds of artifact this software knows of.
#[derive(Clone, Copy, Debug, PartialEq, Eq, Structural, PartialOrd, Ord, Hash)]
pub enum KnownArtifactKind {
    GimletSp,
    GimletRot,
    Host,
    Trampoline,
    ControlPlane,
    PscSp,
    PscRot,
    SwitchSp,
    SwitchRot,
}

/// The name a known kind goes by.
pub open spec fn known_name(k: KnownArtifactKind) -> Seq<char> {
    match k {
        KnownArtifactKind::GimletSp => "gimlet_sp"@,
        KnownArtifactKind::GimletRot => "gimlet_rot"@,
        KnownArtifactKind::Host => "host"@,
        KnownArtifactKind::Trampoline => "trampoline"@,
        KnownArtifactKind::ControlPlane => "control_plane"@,
        KnownArtifactKind::PscSp => "psc_sp"@,
        KnownArtifactKind::PscRot => "psc_rot"@,
        KnownArtifactKind::SwitchSp => "switch_sp"@,
        KnownArtifactKind::SwitchRot => "switch_rot"@,
    }
}

impl KnownArtifactKind {
    pub fn name(&self) -> (r: &'static str)
        ensures
            r@ == known_name(*self),
    {
        match self {
            KnownArtifactKind::GimletSp => "gimlet_sp",
            KnownArtifactKind::GimletRot => "gimlet_rot",
            KnownArtifactKind::Host => "host",
            KnownArtifactKind::Trampoline => "trampoline",
            KnownArtifactKind::ControlPlane => "control_plane",
            KnownArtifactKind::PscSp => "psc_sp",
            KnownArtifactKind::PscRot => "psc_rot",
            KnownArtifactKind::SwitchSp => "switch_sp",
            KnownArtifactKind::SwitchRot => "switch_rot",
        }
    }

    /// All known kinds.
    pub fn all() -> (r: Vec<KnownArtifactKind>)
        ensures
            forall|k: KnownArtifactKind| #[trigger] r@.contains(k),
    {
        let r = vec![
            KnownArtifactKind::GimletSp,
            KnownArtifactKind::GimletRot,
            KnownArtifactKind::Host,
            KnownArtifactKind::Trampoline,
            KnownArtifactKind::ControlPlane,
            KnownArtifactKind::PscSp,
            KnownArtifactKind::PscRot,
            KnownArtifactKind::SwitchSp,
            KnownArtifactKind::SwitchRot,
        ];
        assert forall|k: KnownArtifactKind| #[trigger] r@.contains(k) by {
            match k {
                KnownArtifactKind::GimletSp => assert(r@[0] == k),
                KnownArtifactKind::GimletRot => assert(r@[1] == k),
                KnownArtifactKind::Host => assert(r@[2] == k),
                KnownArtifactKind::Trampoline => assert(r@[3] == k),
                KnownArtifactKind::ControlPlane => assert(r@[4] == k),
                KnownArtifactKind::PscSp => assert(r@[5] == k),
                KnownArtifactKind::PscRot => assert(r@[6] == k),
                KnownArtifactKind::SwitchSp => assert(r@[7] == k),
                KnownArtifactKind::SwitchRot => assert(r@[8] == k),
            }
        }
        r
    }
}

/// The kind of an artifact, as a string, so that a repository may describe
/// kinds this software does not know yet.
#[derive(Clone, Debug, PartialEq, Eq, Hash, PartialOrd, Ord)]
pub struct ArtifactKind(String);

impl View for ArtifactKind {
    type V = Seq<char>;

    closed spec fn view(&self) -> Seq<char> {
        self.0@
    }
}

impl ArtifactKind {
    pub fn new(kind: String) -> (r: Self)
        ensures
            r@ == kind@,
    {
        Self(kind)
    }

    pub fn from_known(kind: KnownArtifactKind) -> (r: Self)
        ensures
            r@ == known_name(kind),
    {
        Self(kind.name().to_owned())
    }

    pub fn as_str(&self) -> (r: &str)
        ensures
            r@ == self@,
    {
        self.0.as_str()
    }

    /// The known kind of this name, if there is one.
    pub fn to_known(&self) -> (r: Option<KnownArtifactKind>)
        ensures
            r is Some ==> known_name(r.unwrap()) == self@,
            r is None ==> forall|k: KnownArtifactKind| known_name(k) != self@,
    {
        let all = KnownArtifactKind::all();
        let mut i: usize = 0;
        while i < all.len()
            invariant
                0 <= i <= all@.len(),
                forall|k: KnownArtifactKind| #[trigger] all@.contains(k),
                forall|j: int| 0 <= j < i ==> known_name(#[trigger] all@[j]) != self@,
            decreases all@.len() - i,
        {
            let k = all[i];
            if k.name().to_owned() == self.0 {
                return Some(k);
            }
            i += 1;
        }
        proof {
            assert forall|k: KnownArtifactKind| known_name(k) != self@ by {
                assert(all@.contains(k));
                let j = choose|j: int| 0 <= j < all@.len() && all@[j] == k;
                assert(known_name(all@[j]) != self@);
            }
        }
        None
    }
}

/// An artifact available in a repository.
#[derive(Clone, Debug, PartialEq, Eq)]
pub struct Artifact {
    pub name: String,
    pub version: String,
    pub kind: ArtifactKind,
    pub target: String,
}

/// What identifies an artifact: its name, version and kind.
#[derive(Clone, Debug, PartialEq, Eq, Hash, PartialOrd, Ord)]
pub struct ArtifactId {
    pub name: String,
    pub version: String,
    pub kind: ArtifactKind,
}

impl Artifact {
    /// The id of this artifact.
    pub fn id(&self) -> (r: ArtifactId)
        ensures
            r.name@ == self.name@,
            r.version@ == self.version@,
            r.kind@ == self.kind@,
    {
        ArtifactId {
            name: self.name.clone(),
            version: self.version.clone(),
            kind: ArtifactKind(self.kind.0.clone()),
        }
    }
}

/// The artifacts document of a rack update repository.
#[derive(Clone, Debug)]
pub struct ArtifactsDocument {
    pub artifacts: Vec<Artifact>,
}

} // verus!
