use octopus::{OctopusIPCMContract, RegistryError};

fn s(x: &str) -> String {
    x.to_string()
}

fn ready(owner: &str) -> OctopusIPCMContract {
    let mut reg = OctopusIPCMContract::new();
    reg.initialize(s(owner)).unwrap();
    reg
}

#[test]
fn test_ipcm_contract() {
    let owner = s("GOWNER");
    let mut reg = ready("GOWNER");

    let token_id = s("token123");
    let initial_cid = s("QmInitialCID");
    reg.update_mapping(owner.clone(), true, token_id.clone(), initial_cid.clone()).unwrap();
    assert_eq!(reg.get_mapping(&token_id), initial_cid);

    let new_cid = s("QmNewCID");
    reg.update_mapping(owner.clone(), true, token_id.clone(), new_cid.clone()).unwrap();
    assert_eq!(reg.get_mapping(&token_id), new_cid);

    let new_owner = s("GNEWOWNER");
    reg.transfer_ownership(owner.clone(), true, new_owner.clone()).unwrap();

    let final_cid = s("QmFinalCID");
    reg.update_mapping(new_owner.clone(), true, token_id.clone(), final_cid.clone()).unwrap();

    let result = reg.update_mapping(owner.clone(), true, token_id.clone(), initial_cid.clone());
    assert!(result.is_err());
    assert_eq!(reg.get_mapping(&token_id), final_cid);
}

#[test]
fn initialize_twice_fails() {
    let mut reg = ready("A");
    assert_eq!(reg.initialize(s("B")), Err(RegistryError::AlreadyInitialized));
    let ev = reg.transfer_ownership(s("A"), true, s("C")).unwrap();
    assert_eq!(ev.old_owner, "A");
    assert_eq!(ev.new_owner, "C");
}

#[test]
fn update_before_initialize_fails() {
    let mut reg = OctopusIPCMContract::new();
    let r = reg.update_mapping(s("A"), true, s("t1"), s("cid"));
    assert!(matches!(r, Err(RegistryError::NotInitialized)));
    assert_eq!(reg.get_mapping(&s("t1")), "");
}

#[test]
fn unset_mapping_reads_empty() {
    let reg = ready("A");
    assert_eq!(reg.get_mapping(&s("never")), "");
}

#[test]
fn reread_gives_same_value() {
    let mut reg = ready("A");
    reg.update_mapping(s("A"), true, s("t1"), s("cidX")).unwrap();
    let first = reg.get_mapping(&s("t1"));
    let second = reg.get_mapping(&s("t1"));
    assert_eq!(first, second);
    assert_eq!(first, "cidX");
}

#[test]
fn update_events_carry_history() {
    let mut reg = ready("A");
    let e1 = reg.update_mapping(s("A"), true, s("t1"), s("cidX")).unwrap();
    assert_eq!(e1.token_id, "t1");
    assert_eq!(e1.old_cid, "");
    assert_eq!(e1.new_cid, "cidX");
    assert_eq!(e1.caller, "A");
    assert_eq!(reg.get_mapping(&s("t1")), "cidX");
    let e2 = reg.update_mapping(s("A"), true, s("t1"), s("cidY")).unwrap();
    assert_eq!(e2.old_cid, "cidX");
    assert_eq!(e2.new_cid, "cidY");
    assert_eq!(reg.get_mapping(&s("t1")), "cidY");
    let e3 = reg.update_mapping(s("A"), true, s("t1"), s("cidZ")).unwrap();
    assert_eq!(e3.old_cid, e2.new_cid);
    assert_eq!(reg.get_mapping(&s("t1")), e3.new_cid);
}

#[test]
fn updates_of_other_ids_are_independent() {
    let mut reg = ready("A");
    reg.update_mapping(s("A"), true, s("t1"), s("c1")).unwrap();
    let e = reg.update_mapping(s("A"), true, s("t2"), s("c2")).unwrap();
    assert_eq!(e.old_cid, "");
    assert_eq!(reg.get_mapping(&s("t1")), "c1");
    assert_eq!(reg.get_mapping(&s("t2")), "c2");
}

#[test]
fn non_owner_cannot_update() {
    let mut reg = ready("A");
    reg.update_mapping(s("A"), true, s("t1"), s("c1")).unwrap();
    let r = reg.update_mapping(s("B"), true, s("t1"), s("evil"));
    assert!(matches!(r, Err(RegistryError::NotOwner)));
    assert_eq!(reg.get_mapping(&s("t1")), "c1");
}

#[test]
fn owner_without_proof_cannot_update() {
    let mut reg = ready("A");
    let r = reg.update_mapping(s("A"), false, s("t1"), s("c1"));
    assert!(matches!(r, Err(RegistryError::NotAuthorized)));
    assert_eq!(reg.get_mapping(&s("t1")), "");
}

#[test]
fn transfer_ownership_needs_owner_and_proof() {
    let mut reg = ready("A");
    let r = reg.transfer_ownership(s("B"), true, s("B"));
    assert!(matches!(r, Err(RegistryError::NotOwner)));
    let r = reg.transfer_ownership(s("A"), false, s("B"));
    assert!(matches!(r, Err(RegistryError::NotAuthorized)));
    let r = reg.update_mapping(s("B"), true, s("t"), s("c"));
    assert!(matches!(r, Err(RegistryError::NotOwner)));
    reg.update_mapping(s("A"), true, s("t"), s("c")).unwrap();
    assert_eq!(reg.get_mapping(&s("t")), "c");
}
