use bonsai_db::database::{Database, Options};
use std::collections::BTreeMap;

struct Rng(u64);

impl Rng {
    fn next(&mut self) -> u64 {
        self.0 = self.0.wrapping_mul(6364136223846793005).wrapping_add(1442695040888963407);
        self.0 >> 33
    }
}

fn churn(seed: u64, rounds: usize, ops: usize, keys: u64, page_size: u32) {
    let options = Options { max_files: 4, page_size, cache_size: 0 };
    let mut rng = Rng(seed);
    let mut db = Database::open(None, options).unwrap();
    let mut model: BTreeMap<Vec<u8>, Vec<u8>> = BTreeMap::new();
    for round in 0..rounds {
        let mut tx = db.begin_write().unwrap();
        let mostly_remove = rng.next() % 3 == 0;
        for _ in 0..ops {
            let k = rng.next() % keys;
            let key = format!("k{:0width$}", k, width = 1 + (k % 7) as usize).into_bytes();
            let remove = if mostly_remove { rng.next() % 4 != 0 } else { rng.next() % 4 == 0 };
            if remove {
                tx.remove(db.store(), &key).unwrap();
                model.remove(&key);
            } else {
                let value = vec![b'a' + (rng.next() % 26) as u8; (rng.next() % 90) as usize];
                tx.put(db.store(), &key, &value).unwrap();
                model.insert(key, value);
            }
        }
        // What the transaction reads before the commit.
        for (k, v) in model.iter().take(20) {
            assert_eq!(tx.get(db.store(), k).unwrap().as_ref(), Some(v), "seed {seed} round {round}");
        }
        db.commit(tx).unwrap();
        if round % 3 == 0 {
            let bytes = db.into_bytes();
            db = Database::open(Some(bytes), options).unwrap();
        }
        let reader = db.begin_read();
        let mut cursor = reader.cursor(db.store()).unwrap();
        let mut seen = 0usize;
        let mut expected = model.iter();
        while cursor.is_valid() {
            let (k, v) = expected.next().expect("more entries than were put");
            assert_eq!(cursor.key(), &k[..], "seed {seed} round {round}");
            assert_eq!(cursor.value(), &v[..], "seed {seed} round {round}");
            seen += 1;
            cursor.next().unwrap();
        }
        assert_eq!(seen, model.len(), "seed {seed} round {round}");
        for k in 0..keys {
            let key = format!("k{:0width$}", k, width = 1 + (k % 7) as usize).into_bytes();
            assert_eq!(
                reader.get(db.store(), &key).unwrap().as_ref(),
                model.get(&key),
                "seed {seed} round {round} key {k}"
            );
        }
        db.end_read(reader).unwrap();
    }
}

#[test]
fn random_churn_matches_a_map() {
    for seed in 1..=6 {
        churn(seed, 30, 40, 300, 128);
    }
}

#[test]
fn random_churn_on_large_pages_matches_a_map() {
    for seed in 11..=13 {
        churn(seed, 20, 120, 800, 256);
    }
}

#[test]
fn random_churn_with_few_keys_matches_a_map() {
    for seed in 21..=30 {
        churn(seed, 40, 12, 24, 128);
    }
}
