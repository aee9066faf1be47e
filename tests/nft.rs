use octopus::{OctopusNFTContract, RegistryError};

fn s(x: &str) -> String {
    x.to_string()
}

fn ready(admin: &str) -> OctopusNFTContract {
    let mut reg = OctopusNFTContract::new();
    reg.initialize(s(admin), s("CIPCM")).unwrap();
    reg
}

#[test]
fn test_nft_contract() {
    let ipcm_contract_address = s("CIPCMADDRESS");
    let admin = s("GADMIN");
    let user = s("GUSER");
    let mut reg = OctopusNFTContract::new();
    reg.initialize(admin.clone(), ipcm_contract_address.clone()).unwrap();

    let token_id = s("token123");
    let ipcm_key = s("ipcm_key_123");
    reg.mint(admin.clone(), true, token_id.clone(), user.clone(), ipcm_key.clone()).unwrap();

    let owner = reg.owner_of(&token_id).unwrap();
    assert_eq!(owner, user);

    let retrieved_ipcm_key = reg.get_ipcm_key(&token_id).unwrap();
    assert_eq!(retrieved_ipcm_key, ipcm_key);

    let user_tokens = reg.tokens_of(&user);
    assert_eq!(user_tokens.len(), 1);
    assert_eq!(user_tokens[0], token_id);

    let new_owner = s("GNEWOWNER");
    reg.transfer(user.clone(), true, token_id.clone(), new_owner.clone()).unwrap();

    let updated_owner = reg.owner_of(&token_id).unwrap();
    assert_eq!(updated_owner, new_owner);

    let user_tokens_after = reg.tokens_of(&user);
    assert_eq!(user_tokens_after.len(), 0);

    let new_owner_tokens = reg.tokens_of(&new_owner);
    assert_eq!(new_owner_tokens.len(), 1);
    assert_eq!(new_owner_tokens[0], token_id);

    reg.burn(new_owner.clone(), true, token_id.clone()).unwrap();

    let new_owner_tokens_after = reg.tokens_of(&new_owner);
    assert_eq!(new_owner_tokens_after.len(), 0);

    let result = reg.owner_of(&token_id);
    assert!(result.is_err());
}

#[test]
fn initialize_stores_mapping_registry_address() {
    let mut reg = OctopusNFTContract::new();
    assert_eq!(reg.get_ipcm_contract(), None);
    reg.initialize(s("A"), s("M")).unwrap();
    assert_eq!(reg.get_ipcm_contract(), Some(s("M")));
    assert_eq!(reg.initialize(s("B"), s("N")), Err(RegistryError::AlreadyInitialized));
    assert_eq!(reg.get_ipcm_contract(), Some(s("M")));
}

#[test]
fn mint_transfer_burn_scenario() {
    let mut reg = ready("A");
    let ev = reg.mint(s("A"), true, s("tok1"), s("U"), s("k1")).unwrap();
    assert_eq!((ev.token_id.as_str(), ev.holder.as_str(), ev.ipcm_key.as_str()), ("tok1", "U", "k1"));
    assert_eq!(reg.owner_of(&s("tok1")), Ok(s("U")));
    assert_eq!(reg.tokens_of(&s("U")), vec![s("tok1")]);

    let ev = reg.transfer(s("U"), true, s("tok1"), s("V")).unwrap();
    assert_eq!((ev.token_id.as_str(), ev.from.as_str(), ev.to.as_str()), ("tok1", "U", "V"));
    assert_eq!(reg.tokens_of(&s("U")), Vec::<String>::new());
    assert_eq!(reg.tokens_of(&s("V")), vec![s("tok1")]);
    assert_eq!(reg.get_ipcm_key(&s("tok1")), Ok(s("k1")));

    let ev = reg.burn(s("V"), true, s("tok1")).unwrap();
    assert_eq!((ev.token_id.as_str(), ev.holder.as_str()), ("tok1", "V"));
    assert_eq!(reg.owner_of(&s("tok1")), Err(RegistryError::TokenNotFound));
    assert_eq!(reg.get_ipcm_key(&s("tok1")), Err(RegistryError::TokenNotFound));
    assert_eq!(reg.tokens_of(&s("V")), Vec::<String>::new());
}

#[test]
fn duplicate_mint_fails() {
    let mut reg = ready("A");
    reg.mint(s("A"), true, s("dup"), s("U"), s("k")).unwrap();
    let r = reg.mint(s("A"), true, s("dup"), s("U"), s("k2"));
    assert!(matches!(r, Err(RegistryError::TokenAlreadyExists)));
    assert_eq!(reg.get_ipcm_key(&s("dup")), Ok(s("k")));
    assert_eq!(reg.tokens_of(&s("U")), vec![s("dup")]);
}

#[test]
fn non_owner_transfer_leaves_indexes_unchanged() {
    let mut reg = ready("A");
    reg.mint(s("A"), true, s("tok1"), s("U"), s("k1")).unwrap();
    let r = reg.transfer(s("notOwner"), true, s("tok1"), s("W"));
    assert!(matches!(r, Err(RegistryError::NotOwner)));
    assert_eq!(reg.owner_of(&s("tok1")), Ok(s("U")));
    assert_eq!(reg.get_ipcm_key(&s("tok1")), Ok(s("k1")));
    assert_eq!(reg.tokens_of(&s("U")), vec![s("tok1")]);
    assert_eq!(reg.tokens_of(&s("W")), Vec::<String>::new());
    assert_eq!(reg.tokens_of(&s("notOwner")), Vec::<String>::new());
}

#[test]
fn mint_requires_admin_and_proof() {
    let mut reg = ready("A");
    let r = reg.mint(s("B"), true, s("t"), s("U"), s("k"));
    assert!(matches!(r, Err(RegistryError::NotAdmin)));
    let r = reg.mint(s("A"), false, s("t"), s("U"), s("k"));
    assert!(matches!(r, Err(RegistryError::NotAuthorized)));
    assert_eq!(reg.owner_of(&s("t")), Err(RegistryError::TokenNotFound));
    let mut fresh = OctopusNFTContract::new();
    let r = fresh.mint(s("A"), true, s("t"), s("U"), s("k"));
    assert!(matches!(r, Err(RegistryError::NotInitialized)));
}

#[test]
fn transfer_and_burn_errors() {
    let mut reg = ready("A");
    let r = reg.transfer(s("U"), true, s("missing"), s("V"));
    assert!(matches!(r, Err(RegistryError::TokenNotFound)));
    let r = reg.burn(s("U"), true, s("missing"));
    assert!(matches!(r, Err(RegistryError::TokenNotFound)));
    reg.mint(s("A"), true, s("t"), s("U"), s("k")).unwrap();
    let r = reg.transfer(s("U"), false, s("t"), s("V"));
    assert!(matches!(r, Err(RegistryError::NotAuthorized)));
    let r = reg.burn(s("V"), true, s("t"));
    assert!(matches!(r, Err(RegistryError::NotOwner)));
    let r = reg.burn(s("U"), false, s("t"));
    assert!(matches!(r, Err(RegistryError::NotAuthorized)));
    assert_eq!(reg.owner_of(&s("t")), Ok(s("U")));
}

#[test]
fn reverse_index_keeps_order_and_drops_stale_entries() {
    let mut reg = ready("A");
    for (t, h) in [("t1", "U"), ("t2", "U"), ("t3", "V"), ("t4", "U")] {
        reg.mint(s("A"), true, s(t), s(h), format!("k_{}", t)).unwrap();
    }
    assert_eq!(reg.tokens_of(&s("U")), vec![s("t1"), s("t2"), s("t4")]);
    reg.transfer(s("U"), true, s("t2"), s("V")).unwrap();
    assert_eq!(reg.tokens_of(&s("U")), vec![s("t1"), s("t4")]);
    assert_eq!(reg.tokens_of(&s("V")), vec![s("t3"), s("t2")]);
    reg.burn(s("V"), true, s("t3")).unwrap();
    assert_eq!(reg.tokens_of(&s("V")), vec![s("t2")]);
    reg.transfer(s("U"), true, s("t1"), s("U")).unwrap();
    assert_eq!(reg.tokens_of(&s("U")), vec![s("t4"), s("t1")]);
    for h in ["U", "V"] {
        for t in reg.tokens_of(&s(h)) {
            assert_eq!(reg.owner_of(&t), Ok(s(h)));
        }
    }
}

#[test]
fn existence_agrees_across_reads() {
    let mut reg = ready("A");
    reg.mint(s("A"), true, s("a"), s("U"), s("ka")).unwrap();
    reg.mint(s("A"), true, s("b"), s("V"), s("kb")).unwrap();
    reg.burn(s("U"), true, s("a")).unwrap();
    for t in ["a", "b", "c"] {
        let listed = ["U", "V"].iter().any(|h| reg.tokens_of(&s(h)).contains(&s(t)));
        assert_eq!(reg.owner_of(&s(t)).is_ok(), reg.get_ipcm_key(&s(t)).is_ok());
        assert_eq!(reg.owner_of(&s(t)).is_ok(), listed);
    }
    assert!(reg.owner_of(&s("b")).is_ok());
}

#[test]
fn reminting_a_burned_id_is_allowed() {
    let mut reg = ready("A");
    reg.mint(s("A"), true, s("t"), s("U"), s("k1")).unwrap();
    reg.burn(s("U"), true, s("t")).unwrap();
    reg.mint(s("A"), true, s("t"), s("V"), s("k2")).unwrap();
    assert_eq!(reg.owner_of(&s("t")), Ok(s("V")));
    assert_eq!(reg.get_ipcm_key(&s("t")), Ok(s("k2")));
    assert_eq!(reg.tokens_of(&s("U")), Vec::<String>::new());
}
