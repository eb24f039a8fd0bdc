pub mod wok_cache;
