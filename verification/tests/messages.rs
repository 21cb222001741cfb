use fmc_protocol::messages::{
    AssetRequest, AssetResponse, ClientIdentification, ClientReady, DeleteModel, Disconnect,
    ModelPlayAnimation, ModelUpdateAsset, ServerConfig,
};
use std::collections::HashMap;

#[test]
fn server_config_holds_its_maps() {
    let mut block_ids = HashMap::new();
    block_ids.insert("stone".to_string(), 1u16);
    let config = ServerConfig {
        assets_hash: 0xdead_beef,
        block_ids,
        model_ids: HashMap::new(),
        item_ids: HashMap::new(),
        render_distance: 16,
    };
    let copy = config.clone();
    assert_eq!(copy.block_ids.get("stone"), Some(&1));
    assert_eq!(copy.render_distance, 16);
    assert_eq!(copy.assets_hash, 0xdead_beef);
}

#[test]
fn plain_messages() {
    let id = ClientIdentification { name: "steve".to_string() };
    assert_eq!(id.name, "steve");
    let d = Disconnect { message: String::new() };
    assert!(d.message.is_empty());
    let a = AssetResponse { file: vec![1, 2, 3] };
    assert_eq!(a.file.len(), 3);
    let _ = (ClientReady, AssetRequest);
    let m = ModelPlayAnimation { model_id: 1, animation_index: 2, repeat: true };
    assert!(m.repeat);
    let u = ModelUpdateAsset { id: 3, asset: 4 };
    assert_eq!((u.id, u.asset), (3, 4));
    assert_eq!(DeleteModel { id: 9 }.id, 9);
}
