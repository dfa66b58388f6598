use lsm_db::config::{
    LsmConfig, DEFAULT_BLOCK_CACHE_CAPACITY, DEFAULT_COMPACTION_TRIGGER, DEFAULT_MEMTABLE_CAPACITY,
};

#[test]
fn test_default_capacity_is_documented_constant() {
    assert_eq!(
        LsmConfig::default().memtable_capacity_bytes(),
        DEFAULT_MEMTABLE_CAPACITY
    );
}

#[test]
fn test_builder_overrides_capacity() {
    let c = LsmConfig::new().memtable_capacity(123);
    assert_eq!(c.memtable_capacity_bytes(), 123);
}

#[test]
fn test_new_equals_default() {
    assert_eq!(LsmConfig::new(), LsmConfig::default());
}

#[test]
fn test_default_compaction_trigger_is_documented_constant() {
    assert_eq!(
        LsmConfig::default().compaction_trigger_runs(),
        DEFAULT_COMPACTION_TRIGGER
    );
}

#[test]
fn test_compaction_trigger_override() {
    assert_eq!(
        LsmConfig::new()
            .compaction_trigger(8)
            .compaction_trigger_runs(),
        8
    );
}

#[test]
fn test_compaction_trigger_clamped_to_two() {
    assert_eq!(
        LsmConfig::new()
            .compaction_trigger(0)
            .compaction_trigger_runs(),
        2
    );
    assert_eq!(
        LsmConfig::new()
            .compaction_trigger(1)
            .compaction_trigger_runs(),
        2
    );
}

#[test]
fn block_cache_capacity_defaults_and_overrides() {
    assert_eq!(DEFAULT_BLOCK_CACHE_CAPACITY, 8 * 1024 * 1024);
    assert_eq!(
        LsmConfig::new().block_cache_capacity_bytes(),
        DEFAULT_BLOCK_CACHE_CAPACITY
    );
    let c = LsmConfig::new().block_cache_capacity(0);
    assert_eq!(c.block_cache_capacity_bytes(), 0);
    assert_eq!(c.memtable_capacity_bytes(), 4 * 1024 * 1024);
    assert_eq!(c.clone(), c);
}
