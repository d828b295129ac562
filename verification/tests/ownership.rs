use cw_indexing::ownership::{
    Action, Attribute, BlockInfo, Expiration, Ownership, OwnershipError, OwnershipStore,
};
use cw_indexing::store::Store;

fn mock_addresses() -> [String; 3] {
    ["larry".to_string(), "jake".to_string(), "pumpkin".to_string()]
}

fn mock_block_at_height(height: u64) -> BlockInfo {
    BlockInfo { height, time: 10000, chain_id: "".to_string() }
}

fn ownership_store() -> OwnershipStore {
    OwnershipStore::new("ownership")
}

#[test]
fn initializing_ownership() {
    let mut store = Store::new();
    let owned = ownership_store();
    let [larry, _, _] = mock_addresses();

    let ownership = owned.initialize_owner(&mut store, Some(larry.as_str())).unwrap();

    // ownership returned is same as ownership stored.
    assert_eq!(ownership, owned.get_ownership(&store).unwrap());

    assert_eq!(
        ownership,
        Ownership { owner: Some(larry), pending_owner: None, pending_expiry: None },
    );
}

#[test]
fn initialize_ownership_no_owner() {
    let mut store = Store::new();
    let owned = ownership_store();
    let ownership = owned.initialize_owner(&mut store, None).unwrap();
    assert_eq!(
        ownership,
        Ownership { owner: None, pending_owner: None, pending_expiry: None },
    );
}

#[test]
fn asserting_ownership() {
    let mut store = Store::new();
    let owned = ownership_store();
    let [larry, jake, _] = mock_addresses();

    // case 1. owner has not renounced
    {
        owned.initialize_owner(&mut store, Some(larry.as_str())).unwrap();

        let res = owned.assert_owner(&store, &larry);
        assert!(res.is_ok());

        let res = owned.assert_owner(&store, &jake);
        assert_eq!(res.unwrap_err(), OwnershipError::NotOwner);
    }

    // case 2. owner has renounced
    {
        owned
            .update_ownership(
                &mut store,
                &mock_block_at_height(12345),
                &larry,
                Action::RenounceOwnership,
            )
            .unwrap();

        let res = owned.assert_owner(&store, &larry);
        assert_eq!(res.unwrap_err(), OwnershipError::NoOwner);
    }
}

#[test]
fn transferring_ownership() {
    let mut store = Store::new();
    let owned = ownership_store();
    let [larry, jake, pumpkin] = mock_addresses();

    owned.initialize_owner(&mut store, Some(larry.as_str())).unwrap();

    // non-owner cannot transfer ownership
    {
        let err = owned
            .update_ownership(
                &mut store,
                &mock_block_at_height(12345),
                &jake,
                Action::TransferOwnership { new_owner: pumpkin.clone(), expiry: None },
            )
            .unwrap_err();
        assert_eq!(err, OwnershipError::NotOwner);
    }

    // owner properly transfers ownership
    {
        let ownership = owned
            .update_ownership(
                &mut store,
                &mock_block_at_height(12345),
                &larry,
                Action::TransferOwnership {
                    new_owner: pumpkin.clone(),
                    expiry: Some(Expiration::AtHeight(42069)),
                },
            )
            .unwrap();
        assert_eq!(
            ownership,
            Ownership {
                owner: Some(larry),
                pending_owner: Some(pumpkin),
                pending_expiry: Some(Expiration::AtHeight(42069)),
            },
        );

        let saved_ownership = owned.get_ownership(&store).unwrap();
        assert_eq!(saved_ownership, ownership);
    }
}

#[test]
fn accepting_ownership() {
    let mut store = Store::new();
    let owned = ownership_store();
    let [larry, jake, pumpkin] = mock_addresses();

    owned.initialize_owner(&mut store, Some(larry.as_str())).unwrap();

    // cannot accept ownership when there isn't a pending ownership transfer
    {
        let err = owned
            .update_ownership(
                &mut store,
                &mock_block_at_height(12345),
                &pumpkin,
                Action::AcceptOwnership,
            )
            .unwrap_err();
        assert_eq!(err, OwnershipError::TransferNotFound);
    }

    owned
        .update_ownership(
            &mut store,
            &mock_block_at_height(10000),
            &larry,
            Action::TransferOwnership {
                new_owner: pumpkin.clone(),
                expiry: Some(Expiration::AtHeight(42069)),
            },
        )
        .unwrap();

    // non-pending owner cannot accept ownership
    {
        let err = owned
            .update_ownership(
                &mut store,
                &mock_block_at_height(12345),
                &jake,
                Action::AcceptOwnership,
            )
            .unwrap_err();
        assert_eq!(err, OwnershipError::NotPendingOwner);
    }

    // cannot accept ownership if deadline has passed
    {
        let err = owned
            .update_ownership(
                &mut store,
                &mock_block_at_height(69420),
                &pumpkin,
                Action::AcceptOwnership,
            )
            .unwrap_err();
        assert_eq!(err, OwnershipError::TransferExpired);
    }

    // pending owner properly accepts ownership before deadline
    {
        let ownership = owned
            .update_ownership(
                &mut store,
                &mock_block_at_height(10000),
                &pumpkin,
                Action::AcceptOwnership,
            )
            .unwrap();
        assert_eq!(
            ownership,
            Ownership { owner: Some(pumpkin), pending_owner: None, pending_expiry: None },
        );

        let saved_ownership = owned.get_ownership(&store).unwrap();
        assert_eq!(saved_ownership, ownership);
    }
}

#[test]
fn renouncing_ownership() {
    let mut store = Store::new();
    let owned = ownership_store();
    let [larry, jake, pumpkin] = mock_addresses();

    owned.initialize_owner(&mut store, Some(larry.as_str())).unwrap();
    owned
        .update_ownership(
            &mut store,
            &mock_block_at_height(12345),
            &larry,
            Action::TransferOwnership { new_owner: pumpkin, expiry: None },
        )
        .unwrap();

    // non-owner cannot renounce
    {
        let err = owned
            .update_ownership(
                &mut store,
                &mock_block_at_height(12345),
                &jake,
                Action::RenounceOwnership,
            )
            .unwrap_err();
        assert_eq!(err, OwnershipError::NotOwner);
    }

    // owner properly renounces
    {
        let ownership = owned
            .update_ownership(
                &mut store,
                &mock_block_at_height(12345),
                &larry,
                Action::RenounceOwnership,
            )
            .unwrap();

        // ownership returned is same as ownership stored.
        assert_eq!(ownership, owned.get_ownership(&store).unwrap());

        assert_eq!(
            ownership,
            Ownership { owner: None, pending_owner: None, pending_expiry: None },
        );
    }

    // cannot renounce twice
    {
        let err = owned
            .update_ownership(
                &mut store,
                &mock_block_at_height(12345),
                &larry,
                Action::RenounceOwnership,
            )
            .unwrap_err();
        assert_eq!(err, OwnershipError::NoOwner);
    }
}

#[test]
fn into_attributes_works() {
    assert_eq!(
        Ownership {
            owner: Some("blue".to_string()),
            pending_owner: None,
            pending_expiry: Some(Expiration::Never),
        }
        .into_attributes(),
        vec![
            Attribute::new("owner", "blue"),
            Attribute::new("pending_owner", "none"),
            Attribute::new("pending_expiry", "expiration: never"),
        ],
    );
}
