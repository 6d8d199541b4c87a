use oxi::image_cache::ImageCache;

fn bits(v: Vec<Vec<f32>>) -> Vec<Vec<u32>> {
    v.into_iter().map(|x| x.into_iter().map(|f| f.to_bits()).collect()).collect()
}

#[test]
fn test_image_cache() {
    let mut cache = ImageCache::new();

    let val_a = bits(vec![vec![0.1, 0.2], vec![0.3]]);
    let val_b = bits(vec![vec![0.4], vec![0.5], vec![0.6]]);
    let val_c = bits(vec![vec![0.7]]);
    let val_d = bits(vec![vec![0.8]]);
    let val_e = bits(vec![vec![0.9]]);

    let hash_a: u64 = 0x1111;
    let hash_b: u64 = 0x2222;
    let hash_b2: u64 = 0x3333;
    let hash_d: u64 = 0x4444;
    let hash_e: u64 = 0x5555;

    assert!(cache.find_image_at(hash_a, 1).is_none());

    cache.add_image_at(hash_a, val_a.clone(), 2);
    assert_eq!(cache.find_image_at(hash_a, 3).unwrap(), val_a);

    cache.add_image_at(hash_b, val_b.clone(), 4);
    assert_eq!(cache.find_image_at(hash_a, 5).unwrap(), val_a);
    assert_eq!(cache.find_image_at(hash_b, 6).unwrap(), val_b);

    cache.add_image_at(hash_b, val_c.clone(), 7);
    assert_eq!(cache.find_image_at(hash_a, 8).unwrap(), val_a);
    assert_eq!(cache.find_image_at(hash_b, 9).unwrap(), val_c);

    cache.add_image_at(hash_b2, val_b.clone(), 10);
    cache.add_image_at(hash_d, val_d.clone(), 11);
    cache.add_image_at(hash_e, val_e.clone(), 12);

    assert!(cache.find_image_at(hash_a, 13).is_none());
    assert_eq!(cache.find_image_at(hash_b, 14).unwrap(), val_c);
    assert_eq!(cache.find_image_at(hash_b2, 15).unwrap(), val_b);
    assert_eq!(cache.find_image_at(hash_d, 16).unwrap(), val_d);
    assert_eq!(cache.find_image_at(hash_e, 17).unwrap(), val_e);
}

#[test]
fn image_cache_with_clock() {
    let mut cache = ImageCache::new();
    let v = vec![vec![1u32, 2, 3]];
    cache.add_image(7, v.clone());
    assert_eq!(cache.find_image(7), Some(v));
    assert!(cache.find_image(8).is_none());
}
