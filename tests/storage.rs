use colorful_map::storage::Storage;

#[test]
fn storage_test_storage() {
    let mut storage = Storage::new();
    {
        let mut rank = storage.select(42);
        rank.push_str("middle rank, ");
    }
    {
        let mut rank = storage.select(17);
        rank.push_str("low ");
        rank.push_str("rank, ");
    }
    {
        let mut rank = storage.select(123);
        rank.push_str("upper rank");
    }
    assert_eq!(String::from(storage).as_str(), "low rank, middle rank, upper rank");
}

#[test]
fn lib_test_storage() {
    let mut storage = Storage::new();
    {
        let mut rank = storage.select(42);
        rank.push_str("middle rank, ");
    }
    {
        let mut rank = storage.select(17);
        rank.push_str("low ");
        rank.push_str("rank, ");
    }
    {
        let mut rank = storage.select(123);
        rank.push_str("upper rank");
    }
    assert_eq!(String::from(storage).as_str(), "low rank, middle rank, upper rank");
}

#[test]
fn empty_storage_paints_nothing() {
    let storage = Storage::new();
    assert_eq!(storage.finalize(), "");
}

#[test]
fn selecting_without_writing_adds_nothing() {
    let mut storage = Storage::new();
    {
        storage.select(9);
    }
    {
        let mut rank = storage.select(3);
        rank.push_str("three");
    }
    assert_eq!(storage.finalize(), "three");
}

#[test]
fn reselecting_a_rank_appends_to_it() {
    let mut storage = Storage::new();
    {
        let mut rank = storage.select(5);
        rank.push_str("a");
    }
    {
        let mut rank = storage.select(1);
        rank.push('b');
    }
    {
        let mut rank = storage.select(5);
        rank.push('c');
        rank.push_str("é");
    }
    assert_eq!(String::from(storage), "bacé");
}

#[test]
fn extreme_ranks_keep_their_order() {
    let mut storage = Storage::new();
    {
        let mut rank = storage.select(65535);
        rank.push_str("top");
    }
    {
        let mut rank = storage.select(0);
        rank.push_str("bottom ");
    }
    {
        let mut rank = storage.select(256);
        rank.push_str("middle ");
    }
    assert_eq!(storage.finalize(), "bottom middle top");
}
