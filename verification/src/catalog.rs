//! External table catalogs: where the configuration is found and what it says.

use vstd::prelude::*;
use vstd::string::*;

use crate::text;
use crate::textmap::TextMap;

verus! {

/// The kinds of catalogs.
#[derive(Debug, Clone, Copy, PartialEq, Eq, Structural)]
pub enum CatalogType {
    Glue,
    Nessie,
    Rest,
    Hive,
    Unity,
}

/// A catalog and its settings.
#[derive(Debug)]
pub struct CatalogConfig {
    pub catalog_type: CatalogType,
    pub config: TextMap<String>,
}

/// Why no configuration was found.
#[derive(Debug, Clone, Copy, PartialEq, Eq, Structural)]
pub enum ConfigError {
    /// The path in the home directory is not valid UTF-8.
    HomeNotUtf8,
    /// There is no configuration file.
    NotFound,
}

impl ConfigError {
    /// What is reported.
    pub open spec fn spec_message(self) -> Seq<char> {
        match self {
            ConfigError::HomeNotUtf8 => "~/.benostream/config.toml path is not valid UTF-8"@,
            ConfigError::NotFound =>
                "No configuration file found. Checked ENV 'BENOSTREAM_CONFIG', ./benostream.toml, and ~/.benostream/config.toml"@,
        }
    }

    /// What is reported.
    pub fn message(&self) -> (r: &'static str)
        ensures
            r@ == self.spec_message(),
    {
        match self {
            ConfigError::HomeNotUtf8 => "~/.benostream/config.toml path is not valid UTF-8",
            ConfigError::NotFound =>
                "No configuration file found. Checked ENV 'BENOSTREAM_CONFIG', ./benostream.toml, and ~/.benostream/config.toml",
        }
    }
}

/// The places of a configuration file: the path in the environment, if there is
/// a file; whether the current directory has one; and the path in the home
/// directory, if there is a file (`Some(None)` where the path is not valid
/// UTF-8).
#[derive(Debug)]
pub struct ConfigPlaces {
    pub env_file: Option<String>,
    pub in_current_dir: bool,
    pub home_file: Option<Option<String>>,
}

/// The configuration file: the one of the environment, else the one of the current directory,
/// else the one of the home directory.
pub open spec fn is_config_file(places: ConfigPlaces, r: Result<String, ConfigError>) -> bool {
    match places.env_file {
        Some(p) => r == Ok::<String, ConfigError>(p),
        None => if places.in_current_dir {
            r matches Ok(p) && p@ == "benostream.toml"@
        } else {
            match places.home_file {
                Some(Some(p)) => r == Ok::<String, ConfigError>(p),
                Some(None) => r == Err::<String, ConfigError>(ConfigError::HomeNotUtf8),
                None => r == Err::<String, ConfigError>(ConfigError::NotFound),
            }
        },
    }
}

/// The configuration file that is read: that of the environment, else that of
/// the current directory, else that of the home directory.
pub fn config_file(places: ConfigPlaces) -> (r: Result<String, ConfigError>)
    ensures
        is_config_file(places, r),
{
    match places.env_file {
        Some(p) => Ok(p),
        None => {
            if places.in_current_dir {
                return Ok("benostream.toml".to_owned());
            }
            match places.home_file {
                Some(Some(p)) => Ok(p),
                Some(None) => Err(ConfigError::HomeNotUtf8),
                None => Err(ConfigError::NotFound),
            }
        },
    }
}

/// The first text that is given.
pub open spec fn first_given(values: Seq<Option<String>>) -> Option<Seq<char>>
    decreases values.len(),
{
    if values.len() == 0 {
        None
    } else {
        match values[0] {
            Some(v) => Some(v@),
            None => first_given(values.skip(1)),
        }
    }
}

/// The first text that is given.
pub fn first_of(values: &Vec<Option<String>>) -> (r: Option<String>)
    ensures
        match r {
            Some(v) => first_given(values@) == Some(v@),
            None => first_given(values@) is None,
        },
{
    let mut i: usize = 0;
    assert(values@.skip(0) =~= values@);
    while i < values.len()
        invariant
            i <= values.len(),
            first_given(values@) == first_given(values@.skip(i as int)),
        decreases values.len() - i,
    {
        assert(values@.skip(i as int).skip(1) =~= values@.skip(i + 1));
        assert(values@.skip(i as int)[0] == values@[i as int]);
        match &values[i] {
            Some(v) => {
                return Some(v.clone());
            },
            None => {},
        }
        i = i + 1;
    }
    None
}

/// What the environment says of the kind of the catalog.
#[derive(Debug, Clone, Copy, PartialEq, Eq, Structural)]
pub enum TypeSetting {
    /// Nothing.
    Unset,
    /// Something that is no kind of catalog.
    Invalid,
    /// A kind of catalog.
    Known(CatalogType),
}

/// The settings in the environment, each variable in order of precedence.
#[derive(Debug)]
pub struct CatalogEnvironment {
    pub catalog_type: TypeSetting,
    pub url: Vec<Option<String>>,
    pub token: Vec<Option<String>>,
    pub credential: Vec<Option<String>>,
    pub prefix: Option<String>,
    pub catalog_id: Option<String>,
    pub namespace: Vec<Option<String>>,
}

/// A catalog that is to be opened, and the namespace of its tables.
#[derive(Debug)]
pub struct CatalogPlan {
    pub catalog: CatalogConfig,
    pub namespace: String,
}

/// Settings with one more, where it is given.
pub open spec fn with_setting(
    m: Map<Seq<char>, Seq<char>>,
    key: Seq<char>,
    value: Option<Seq<char>>,
) -> Map<Seq<char>, Seq<char>> {
    match value {
        Some(v) => m.insert(key, v),
        None => m,
    }
}

/// The text of an optional text.
pub open spec fn given(s: Option<String>) -> Option<Seq<char>> {
    match s {
        Some(t) => Some(t@),
        None => None,
    }
}

/// The settings that the environment gives.
pub open spec fn env_settings(env: CatalogEnvironment) -> Map<Seq<char>, Seq<char>> {
    let url = first_given(env.url@);
    let m1 = with_setting(
        with_setting(Map::empty(), "url"@, url),
        "uri"@,
        url,
    );
    let m2 = with_setting(m1, "token"@, first_given(env.token@));
    let m3 = with_setting(m2, "credential"@, first_given(env.credential@));
    let m4 = with_setting(m3, "prefix"@, given(env.prefix));
    with_setting(m4, "catalog_id"@, given(env.catalog_id))
}

/// The texts of a map.
pub open spec fn setting_texts(m: Map<Seq<char>, String>) -> Map<Seq<char>, Seq<char>> {
    m.map_values(|v: String| v@)
}

fn set_if_given(m: &mut TextMap<String>, key: &str, value: Option<String>)
    requires
        old(m).wf(),
    ensures
        final(m).wf(),
        setting_texts(final(m)@) == with_setting(setting_texts(old(m)@), key@, given(value)),
{
    match value {
        Some(v) => {
            let ghost before = m@;
            m.insert(key.to_owned(), v);
            assert(setting_texts(m@) =~= setting_texts(before).insert(key@, v@));
        },
        None => {},
    }
}

/// The namespace of the tables, `default` unless one is given.
pub open spec fn namespace_or_default(n: Option<Seq<char>>) -> Seq<char> {
    match n {
        Some(t) => t,
        None => "default"@,
    }
}

fn or_default(n: Option<String>) -> (r: String)
    ensures
        r@ == namespace_or_default(given(n)),
{
    match n {
        Some(t) => t,
        None => "default".to_owned(),
    }
}

/// The catalog that is to be opened, if any: that of the environment where it
/// names one, else that of the configuration file. An invalid name in the
/// environment means that there is none.
pub fn resolve_catalog(env: CatalogEnvironment, file: Option<CatalogConfig>) -> (r: Option<
    CatalogPlan,
>)
    requires
        file matches Some(f) ==> f.config.wf(),
    ensures
        match (env.catalog_type, r) {
            (TypeSetting::Known(t), Some(plan)) => {
                &&& plan.catalog.catalog_type == t
                &&& plan.catalog.config.wf()
                &&& setting_texts(plan.catalog.config@) == env_settings(env)
                &&& plan.namespace@ == namespace_or_default(first_given(env.namespace@))
            },
            (TypeSetting::Known(t), None) => false,
            (TypeSetting::Invalid, _) => r is None,
            (TypeSetting::Unset, Some(plan)) => {
                &&& file == Some(plan.catalog)
                &&& plan.namespace@ == namespace_or_default(
                    if plan.catalog.config@.dom().contains("namespace"@) {
                        Some(plan.catalog.config@["namespace"@]@)
                    } else {
                        None
                    },
                )
            },
            (TypeSetting::Unset, None) => file is None,
        },
{
    match env.catalog_type {
        TypeSetting::Known(catalog_type) => {
            let mut config: TextMap<String> = TextMap::new();
            assert(setting_texts(config@) =~= Map::<Seq<char>, Seq<char>>::empty());
            let url: Option<String> = first_of(&env.url);
            let uri: Option<String> = first_of(&env.url);
            set_if_given(&mut config, "url", url);
            set_if_given(&mut config, "uri", uri);
            set_if_given(&mut config, "token", first_of(&env.token));
            set_if_given(&mut config, "credential", first_of(&env.credential));
            set_if_given(&mut config, "prefix", env.prefix);
            set_if_given(&mut config, "catalog_id", env.catalog_id);
            let namespace: String = or_default(first_of(&env.namespace));
            Some(CatalogPlan { catalog: CatalogConfig { catalog_type, config }, namespace })
        },
        TypeSetting::Invalid => None,
        TypeSetting::Unset => match file {
            Some(catalog) => {
                let named: Option<String> = match catalog.config.get("namespace") {
                    Some(n) => Some(n.clone()),
                    None => None,
                };
                let namespace: String = or_default(named);
                Some(CatalogPlan { catalog, namespace })
            },
            None => None,
        },
    }
}

/// Of several values the first one that is given counts.
pub proof fn law_the_first_given_value_counts(values: Seq<Option<String>>, i: int)
    requires
        0 <= i <= values.len(),
        forall|j: int| 0 <= j < i ==> #[trigger] values[j] is None,
    ensures
        i < values.len() ==> (values[i] matches Some(v) ==> first_given(values) == Some(v@)),
        i == values.len() ==> first_given(values) is None,
    decreases i,
{
    if i > 0 {
        let rest = values.skip(1);
        assert(values[0] is None);
        assert forall|j: int| 0 <= j < i - 1 implies #[trigger] rest[j] is None by {
            assert(rest[j] == values[j + 1]);
        }
        law_the_first_given_value_counts(rest, i - 1);
        if i < values.len() {
            assert(rest[i - 1] == values[i]);
        }
    }
}

/// A setting has a value exactly where one is given.
pub open spec fn is_set(
    m: Map<Seq<char>, Seq<char>>,
    key: Seq<char>,
    value: Option<Seq<char>>,
) -> bool {
    &&& m.dom().contains(key) <==> value is Some
    &&& value matches Some(v) ==> m[key] == v
}

/// What the environment gives is what the catalog is opened with: the address under both of
/// its names, the token, the credential, the prefix and the catalog, and nothing besides.
pub proof fn law_environment_is_the_configuration(env: CatalogEnvironment, key: Seq<char>)
    ensures
        ({
            let m = env_settings(env);
            &&& is_set(m, "url"@, first_given(env.url@))
            &&& is_set(m, "uri"@, first_given(env.url@))
            &&& is_set(m, "token"@, first_given(env.token@))
            &&& is_set(m, "credential"@, first_given(env.credential@))
            &&& is_set(m, "prefix"@, given(env.prefix))
            &&& is_set(m, "catalog_id"@, given(env.catalog_id))
            &&& m.dom().contains(key) ==> key == "url"@ || key == "uri"@ || key == "token"@ || key
                == "credential"@ || key == "prefix"@ || key == "catalog_id"@
        }),
{
    reveal_strlit("url");
    reveal_strlit("uri");
    reveal_strlit("token");
    reveal_strlit("credential");
    reveal_strlit("prefix");
    reveal_strlit("catalog_id");
    assert("url"@[2] == 'l' && "uri"@[2] == 'i');
    assert("credential"@[1] == 'r' && "catalog_id"@[1] == 'a');
    assert("url"@.len() == 3 && "uri"@.len() == 3 && "token"@.len() == 5 && "prefix"@.len() == 6);
    assert("credential"@.len() == 10 && "catalog_id"@.len() == 10);
    assert("url"@ != "uri"@ && "credential"@ != "catalog_id"@);
    assert("token"@ != "prefix"@ && "token"@ != "credential"@ && "token"@ != "catalog_id"@);
    assert("prefix"@ != "credential"@ && "prefix"@ != "catalog_id"@);
}

/// A file that the environment names counts before one that lies in the current directory, and
/// that before one in the home directory. Without any there is an error, and so there is where
/// only the home directory is left and its path is no text.
pub proof fn law_configuration_files_come_in_order(
    places: ConfigPlaces,
    r: Result<String, ConfigError>,
)
    requires
        is_config_file(places, r),
    ensures
        places.env_file matches Some(p) ==> r == Ok::<String, ConfigError>(p),
        places.env_file is None && places.in_current_dir ==> (r matches Ok(p) && p@
            == "benostream.toml"@),
        places.env_file is None && !places.in_current_dir ==> (
        places.home_file matches Some(Some(p)) ==> r == Ok::<String, ConfigError>(p)),
        r is Ok <==> places.env_file is Some || places.in_current_dir
            || places.home_file matches Some(Some(_)),
        r matches Err(ConfigError::NotFound) ==> places.home_file is None,
        r matches Err(ConfigError::HomeNotUtf8) ==> places.home_file is Some,
{
}

} // verus!
