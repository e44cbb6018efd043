use celeb_shortest_distance::configuration::{
    ApplicationSettings, DatabaseSettings, Environment, MovieDataSettings, Settings,
};

#[test]
fn environment_names() {
    assert_eq!(Environment::Local.as_str(), "local");
    assert_eq!(Environment::Production.as_str(), "production");
}

#[test]
fn environment_parses_ignoring_case() {
    assert!(matches!(Environment::try_from("local"), Ok(Environment::Local)));
    assert!(matches!(Environment::try_from("LOCAL"), Ok(Environment::Local)));
    assert!(matches!(
        Environment::try_from("Production"),
        Ok(Environment::Production)
    ));
    match Environment::try_from("staging") {
        Err(msg) => assert_eq!(msg, "staging"),
        Ok(_) => panic!("staging is not a known environment"),
    }
}

#[test]
fn settings_hold_plain_values() {
    let settings = Settings {
        database: DatabaseSettings { path: "actors.db".to_string() },
        application: ApplicationSettings {
            port: 8000,
            host: "127.0.0.1".to_string(),
            allow_cors: false,
        },
        movie_data: MovieDataSettings { file_path: "data/new_small".to_string() },
    };
    assert_eq!(settings.application.port, 8000);
    assert_eq!(settings.database.path, "actors.db");
    assert_eq!(settings.movie_data.file_path, "data/new_small");
    assert!(!settings.application.allow_cors);
}
