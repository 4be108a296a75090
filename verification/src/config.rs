//! The settings the application keeps between runs.
use vstd::prelude::*;

verus! {

/// The settings kept between runs: where the library is, where its database
/// is, and when it was last scanned. Paths are held as text.
#[derive(Clone, Debug)]
pub struct AppConfig {
    pub library_path: Option<String>,
    pub database_path: String,
    pub last_scan_date: Option<String>,
}

/// The database path used until one is configured.
pub open spec fn default_database_path() -> Seq<char> {
    seq!['.', '.', '/', '.', '.', '/', 'm', 'e', 'd', 'i', 'a', '_', 'v', 'a', 'u', 'l', 't', '.', 'd', 'b']
}

impl Default for AppConfig {
    /// No library, the default database path, never scanned.
    fn default() -> (r: Self)
        ensures
            r.library_path is None,
            r.database_path@ == default_database_path(),
            r.last_scan_date is None,
    {
        let p = "../../media_vault.db";
        proof {
            reveal_strlit("../../media_vault.db");
            assert(p@ =~= default_database_path());
        }
        AppConfig {
            library_path: None,
            database_path: p.to_string(),
            last_scan_date: None,
        }
    }
}

} // verus!
