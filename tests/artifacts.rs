use bootstore::authz::{Silo, SiloCertificateList, SiloIdentityProviderList, SiloUserList};
use bootstore::update::{Artifact, ArtifactKind, KnownArtifactKind};

#[test]
fn known_kinds_round_trip() {
    assert_eq!(ArtifactKind::new("gimlet_sp".to_string()).to_known(), Some(KnownArtifactKind::GimletSp));
    assert_eq!(ArtifactKind::new("fhqwhgads".to_string()).to_known(), None);
    assert_eq!(ArtifactKind::from_known(KnownArtifactKind::GimletSp).as_str(), "gimlet_sp");
    assert_eq!(ArtifactKind::new("fhqwhgads".to_string()).as_str(), "fhqwhgads");
    for k in KnownArtifactKind::all() {
        assert_eq!(ArtifactKind::from_known(k).to_known(), Some(k));
    }
    assert_eq!(ArtifactKind::from_known(KnownArtifactKind::ControlPlane).as_str(), "control_plane");
    assert_eq!(ArtifactKind::new(String::new()).to_known(), None);
}

#[test]
fn artifact_id_keeps_name_version_kind() {
    let a = Artifact {
        name: "host".to_string(),
        version: "1.0.0".to_string(),
        kind: ArtifactKind::from_known(KnownArtifactKind::Host),
        target: "host.tar".to_string(),
    };
    let id = a.id();
    assert_eq!(id.name, "host");
    assert_eq!(id.version, "1.0.0");
    assert_eq!(id.kind.as_str(), "host");
}

#[test]
fn silo_lists_name_their_silo() {
    let silo = Silo { id: 5 };
    assert_eq!(SiloCertificateList::new(silo).silo().id, 5);
    assert_eq!(SiloIdentityProviderList::new(silo).silo().id, 5);
    assert_eq!(SiloUserList::new(silo).silo().id, 5);
    assert_ne!(SiloUserList::new(silo), SiloUserList::new(Silo { id: 6 }));
}
