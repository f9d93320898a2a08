use compact_codec::define::data_type::DataType;
use compact_codec::define::special_type::SpecialType;
use compact_codec::encoded_data::{self, EncodedData, EncodedInteger, EncodedSpecial};
use compact_codec::stream_compressor::{
    Cache, CacheEntry, CachingResult, Conf, DecodeError, PotentialCacheEntry, StreamCompressor,
    StringCache,
};

#[test]
fn data_type_tags() {
    assert_eq!(DataType::from(0), Some(DataType::Special));
    assert_eq!(DataType::from(1), Some(DataType::Integer));
    assert_eq!(DataType::from(2), Some(DataType::Float));
    assert_eq!(DataType::from(3), Some(DataType::String));
    assert_eq!(DataType::from(4), Some(DataType::Array));
    assert_eq!(DataType::from(5), Some(DataType::Object));
    assert_eq!(DataType::from(6), Some(DataType::Alias));
    assert_eq!(DataType::from(7), None);
    assert_eq!(DataType::from(255), None);
}

#[test]
fn special_type_tags() {
    assert_eq!(SpecialType::from(0), Some(SpecialType::Absent));
    assert_eq!(SpecialType::from(1), Some(SpecialType::Null));
    assert_eq!(SpecialType::from(2), Some(SpecialType::Define));
    assert_eq!(SpecialType::from(3), Some(SpecialType::Forget));
    assert_eq!(SpecialType::from(4), None);
}

#[test]
fn cache_entries_start_unused() {
    assert_eq!(CacheEntry::new(3, 9), CacheEntry { index: 3, max_gain: 9, nb_use: 0 });
    assert_eq!(PotentialCacheEntry::new(9), PotentialCacheEntry { max_gain: 9, nb_use: 0 });
}

#[test]
fn first_sight_admits_to_the_future_cache() {
    let mut cache = StringCache::new();
    assert!(cache.get_best_gains().is_empty());
    assert_eq!(cache.get_cached("hello", true), CachingResult::FutureCached);
    assert_eq!(cache.get_best_gains(), vec![("hello".to_string(), 0)]);
    assert_eq!(cache.get_cached("hello", true), CachingResult::NotCached);
    assert_eq!(cache.get_best_gains(), vec![("hello".to_string(), 5)]);
    assert_eq!(cache.get_cached("hello", false), CachingResult::NotCached);
    assert_eq!(cache.get_best_gains(), vec![("hello".to_string(), 10)]);
}

#[test]
fn no_room_or_no_gain_is_not_tracked() {
    let mut cache = StringCache::new();
    assert_eq!(cache.get_cached("hello", false), CachingResult::NotCached);
    assert!(cache.get_best_gains().is_empty());
    assert_eq!(cache.get_cached("", true), CachingResult::NotCached);
    assert!(cache.get_best_gains().is_empty());
    assert_eq!(cache.get_cached("a", true), CachingResult::FutureCached);
    assert_eq!(cache.get_cached("a", true), CachingResult::NotCached);
    assert_eq!(cache.get_best_gains(), vec![("a".to_string(), 1)]);
}

#[test]
fn gain_counts_the_header() {
    let mut cache = StringCache::new();
    let sixteen = "0123456789abcdef";
    assert_eq!(cache.get_cached(sixteen, true), CachingResult::FutureCached);
    assert_eq!(cache.get_cached(sixteen, true), CachingResult::NotCached);
    assert_eq!(cache.get_best_gains(), vec![(sixteen.to_string(), 17)]);
}

#[test]
fn best_gains_come_first() {
    let mut cache = StringCache::new();
    for s in ["ab", "abcdef", "abcd"] {
        assert_eq!(cache.get_cached(s, true), CachingResult::FutureCached);
    }
    for _ in 0..3 {
        cache.get_cached("ab", true);
    }
    cache.get_cached("abcdef", true);
    cache.get_cached("abcd", true);
    cache.get_cached("abcd", true);
    assert_eq!(
        cache.get_best_gains(),
        vec![("abcd".to_string(), 8), ("ab".to_string(), 6), ("abcdef".to_string(), 6)]
    );
}

#[test]
fn cache_counts_its_capacity() {
    let mut cache = Cache::new(4, 1);
    let hello = EncodedData::String("hello".to_string());
    let world = EncodedData::String("world".to_string());
    assert_eq!(cache.get_cached(&EncodedData::Integer(EncodedInteger::Positive(5))), None);
    assert_eq!(cache.get_cached(&EncodedData::Special(EncodedSpecial::Null)), None);
    assert_eq!(cache.get_cached(&hello), None);
    assert_eq!(cache.get_cached(&hello), None);
    assert_eq!(cache.get_cached(&world), None);
    assert_eq!(cache.get_cached(&world), None);
    let mut none = Cache::new(0, 0);
    assert_eq!(none.get_cached(&hello), None);
}

#[test]
fn stream_compressor_is_the_codec() {
    let _compressor = StreamCompressor::new(Conf { max_cache: 8, max_future_cache: 8 });
    let v = EncodedData::Array(vec![
        EncodedData::String("abc".to_string()),
        EncodedData::Alias(3),
    ]);
    let bytes = StreamCompressor::compress(&v);
    assert_eq!(bytes, vec![0x82, 0x63, 0x61, 0x62, 0x63, 0xC3]);
    match StreamCompressor::decompress(&bytes) {
        Ok((decoded, size)) => {
            assert_eq!(decoded, v);
            assert_eq!(size, 6);
        }
        Err(_) => panic!("decodes"),
    }
    match StreamCompressor::decompress(&[0xE0]) {
        Err(DecodeError::BadFormat(e)) => {
            assert_eq!(e, encoded_data::DecodeError::UnknownDataType(7))
        }
        _ => panic!("fails"),
    }
}

#[test]
fn plain_compressor_starts_empty() {
    let _compressor = compact_codec::Compressor::new(compact_codec::Conf {});
    compact_codec::Compressor::compress();
}

#[test]
fn promoted_strings_are_found_by_index() {
    let mut cache = StringCache::new();
    assert!(!cache.promote("hello", 0));
    assert_eq!(cache.get_cached("hello", true), CachingResult::FutureCached);
    assert_eq!(cache.get_cached("hello", true), CachingResult::NotCached);
    assert!(cache.promote("hello", 7));
    assert!(!cache.promote("hello", 8));
    assert_eq!(cache.get_cached("hello", true), CachingResult::Cached(7));
    assert_eq!(cache.get_cached("hello", false), CachingResult::Cached(7));
    assert_eq!(cache.get_best_gains(), vec![("hello".to_string(), 15)]);
}

#[test]
fn forgotten_strings_start_again() {
    let mut cache = StringCache::new();
    assert!(!cache.forget(0));
    cache.get_cached("hello", true);
    cache.get_cached("world", true);
    assert!(cache.promote("hello", 0));
    assert!(cache.promote("world", 1));
    assert!(cache.forget(0));
    assert!(!cache.forget(0));
    assert_eq!(cache.get_cached("world", true), CachingResult::Cached(1));
    assert_eq!(cache.get_cached("hello", true), CachingResult::FutureCached);
    assert_eq!(
        cache.get_best_gains(),
        vec![("world".to_string(), 5), ("hello".to_string(), 0)]
    );
}

#[test]
fn cache_announces_promotions_and_evictions() {
    let mut cache = Cache::new(1, 2);
    let hello = EncodedData::String("hello".to_string());
    let world = EncodedData::String("world".to_string());
    assert_eq!(cache.promote("hello"), None);
    assert_eq!(cache.get_cached(&hello), None);
    assert_eq!(cache.get_cached(&world), None);
    assert_eq!(
        cache.promote("hello"),
        Some(EncodedData::Special(EncodedSpecial::Define(Box::new(hello.clone()))))
    );
    assert_eq!(cache.get_cached(&hello), Some(0));
    assert_eq!(cache.promote("world"), None);
    assert_eq!(cache.forget(3), None);
    assert_eq!(cache.forget(0), Some(EncodedData::Special(EncodedSpecial::Forget(0))));
    assert_eq!(cache.forget(0), None);
    assert_eq!(
        cache.promote("world"),
        Some(EncodedData::Special(EncodedSpecial::Define(Box::new(world.clone()))))
    );
    assert_eq!(cache.get_cached(&world), Some(1));
    assert_eq!(cache.get_cached(&hello), None);
    assert_eq!(cache.get_cached(&hello), None);
}

#[test]
fn future_cache_capacity_is_used_up() {
    let mut cache = Cache::new(4, 1);
    let hello = EncodedData::String("hello".to_string());
    let world = EncodedData::String("world".to_string());
    assert_eq!(cache.get_cached(&hello), None);
    assert_eq!(cache.get_cached(&world), None);
    assert_eq!(cache.promote("world"), None);
    assert!(cache.promote("hello").is_some());
    assert_eq!(cache.get_cached(&world), None);
    assert!(cache.promote("world").is_some());
    assert_eq!(cache.get_cached(&world), Some(1));
}

#[test]
fn alias_table_binds_in_definition_order() {
    let mut table = compact_codec::stream_compressor::AliasTable::new();
    let hello = EncodedData::String("hello".to_string());
    let five = EncodedData::Integer(EncodedInteger::Positive(5));
    let define = |v: &EncodedData| EncodedData::Special(EncodedSpecial::Define(Box::new(v.clone())));
    assert_eq!(table.apply(five.clone()), Ok(Some(five.clone())));
    assert_eq!(table.apply(EncodedData::Alias(0)), Err(DecodeError::UnknownAlias(0)));
    assert_eq!(table.apply(define(&hello)), Ok(None));
    assert_eq!(table.apply(define(&five)), Ok(None));
    assert_eq!(table.apply(EncodedData::Alias(0)), Ok(Some(hello.clone())));
    assert_eq!(table.apply(EncodedData::Alias(1)), Ok(Some(five.clone())));
    assert_eq!(table.apply(EncodedData::Alias(2)), Err(DecodeError::UnknownAlias(2)));
    assert_eq!(table.apply(EncodedData::Special(EncodedSpecial::Forget(0))), Ok(None));
    assert_eq!(
        table.apply(EncodedData::Special(EncodedSpecial::Forget(0))),
        Err(DecodeError::ForgetUnknown(0))
    );
    assert_eq!(table.apply(EncodedData::Alias(0)), Err(DecodeError::UnknownAlias(0)));
    assert_eq!(table.apply(EncodedData::Alias(1)), Ok(Some(five.clone())));
    assert_eq!(table.apply(define(&hello)), Ok(None));
    assert_eq!(table.apply(EncodedData::Alias(2)), Ok(Some(hello)));
    assert_eq!(table.apply(EncodedData::Alias(0)), Err(DecodeError::UnknownAlias(0)));
}

#[test]
fn alias_table_reads_records() {
    let mut table = compact_codec::stream_compressor::AliasTable::new();
    let abc = EncodedData::String("abc".to_string());
    assert_eq!(table.receive(&[0x02, 0x63, 0x61, 0x62, 0x63, 0xC0]), Ok((None, 5)));
    assert_eq!(table.receive(&[0xC0]), Ok((Some(abc.clone()), 1)));
    assert_eq!(table.receive(&[0x63, 0x61, 0x62, 0x63]), Ok((Some(abc), 4)));
    assert_eq!(table.receive(&[0xC1]), Err(DecodeError::UnknownAlias(1)));
    assert_eq!(table.receive(&[0x03, 0x05]), Err(DecodeError::ForgetUnknown(5)));
    assert_eq!(table.receive(&[0x03, 0x00]), Ok((None, 2)));
    assert_eq!(table.receive(&[0xC0]), Err(DecodeError::UnknownAlias(0)));
    assert_eq!(
        table.receive(&[0xE0]),
        Err(DecodeError::BadFormat(encoded_data::DecodeError::UnknownDataType(7)))
    );
}

#[test]
fn stream_replaces_promoted_strings() {
    let mut writer = StreamCompressor::new(Conf { max_cache: 2, max_future_cache: 2 });
    let mut reader = compact_codec::stream_compressor::AliasTable::new();
    let hello = EncodedData::String("hello".to_string());
    let five = EncodedData::Integer(EncodedInteger::Positive(5));

    let first = writer.emit(&hello);
    assert_eq!(first, vec![0x65, 0x68, 0x65, 0x6C, 0x6C, 0x6F]);
    assert_eq!(reader.receive(&first), Ok((Some(hello.clone()), 6)));
    assert_eq!(writer.emit(&hello), first);
    assert_eq!(writer.get_best_gains(), vec![("hello".to_string(), 5)]);

    assert_eq!(writer.promote("world"), Vec::<u8>::new());
    let define = writer.promote("hello");
    assert_eq!(define, vec![0x02, 0x65, 0x68, 0x65, 0x6C, 0x6C, 0x6F]);
    assert_eq!(reader.receive(&define), Ok((None, 7)));
    assert_eq!(writer.promote("hello"), Vec::<u8>::new());

    let alias = writer.emit(&hello);
    assert_eq!(alias, vec![0xC0]);
    assert_eq!(reader.receive(&alias), Ok((Some(hello.clone()), 1)));
    assert_eq!(writer.emit(&five), vec![0x21, 0x05]);

    assert_eq!(writer.forget(1), Vec::<u8>::new());
    let forget = writer.forget(0);
    assert_eq!(forget, vec![0x03, 0x00]);
    assert_eq!(reader.receive(&forget), Ok((None, 2)));
    assert_eq!(reader.receive(&alias), Err(DecodeError::UnknownAlias(0)));
    assert_eq!(writer.emit(&hello), first);
}

#[test]
fn best_candidates_are_promoted_while_there_is_room() {
    let mut cache = Cache::new(2, 8);
    for s in ["ab", "abcdef", "abcd", "xyz"] {
        assert_eq!(cache.get_cached(&EncodedData::String(s.to_string())), None);
    }
    for s in ["abcd", "abcd", "abcdef", "ab", "ab", "ab"] {
        assert_eq!(cache.get_cached(&EncodedData::String(s.to_string())), None);
    }
    let ranking = vec![
        ("abcd".to_string(), 8),
        ("nowhere".to_string(), 7),
        ("ab".to_string(), 6),
        ("abcdef".to_string(), 6),
        ("xyz".to_string(), 0),
    ];
    let records = cache.promote_ranked(&ranking);
    assert_eq!(
        records,
        vec![
            EncodedData::Special(EncodedSpecial::Define(Box::new(EncodedData::String(
                "abcd".to_string()
            )))),
            EncodedData::Special(EncodedSpecial::Define(Box::new(EncodedData::String(
                "ab".to_string()
            )))),
        ]
    );
    assert_eq!(cache.get_cached(&EncodedData::String("abcd".to_string())), Some(0));
    assert_eq!(cache.get_cached(&EncodedData::String("ab".to_string())), Some(1));
    assert_eq!(cache.get_cached(&EncodedData::String("abcdef".to_string())), None);
    assert_eq!(cache.promote_ranked(&ranking), vec![]);
}

#[test]
fn stream_promotes_its_best_candidates() {
    let mut writer = StreamCompressor::new(Conf { max_cache: 1, max_future_cache: 4 });
    let mut reader = compact_codec::stream_compressor::AliasTable::new();
    let ab = EncodedData::String("ab".to_string());
    let abcd = EncodedData::String("abcd".to_string());
    writer.emit(&ab);
    writer.emit(&abcd);
    writer.emit(&abcd);
    let ranking = writer.get_best_gains();
    assert_eq!(ranking, vec![("abcd".to_string(), 4), ("ab".to_string(), 0)]);
    let bytes = writer.promote_ranked(&ranking);
    assert_eq!(bytes, vec![0x02, 0x64, 0x61, 0x62, 0x63, 0x64]);
    assert_eq!(reader.receive(&bytes), Ok((None, 6)));
    assert_eq!(reader.receive(&writer.emit(&abcd)), Ok((Some(abcd), 1)));
    assert_eq!(reader.receive(&writer.emit(&ab)), Ok((Some(ab), 3)));
}
