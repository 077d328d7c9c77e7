use task_registry::cli::{next_arg, App, ApiMethodInfo, Arg, Command, Method, Parameter, SubCommands};
use task_registry::rate_limiter::RateLimiter;
use task_registry::repository::{
    write_one_line, write_stanza, APTRepository, APTRepositoryFileType, APTRepositoryOption,
    APTRepositoryPackageType, RepoCheckIssue,
};

fn sample_list_repo() -> APTRepository {
    let mut repo = APTRepository::new(APTRepositoryFileType::List);
    repo.types = vec![APTRepositoryPackageType::Deb];
    repo.uris = vec!["http://ftp.debian.org/debian".to_string()];
    repo.suites = vec!["bookworm".to_string()];
    repo.components = vec!["main".to_string(), "contrib".to_string()];
    repo
}

#[test]
fn repository_basic_check() {
    let mut repo = APTRepository::new(APTRepositoryFileType::List);
    assert_eq!(repo.basic_check(), Err(RepoCheckIssue::MissingPackageType));
    repo.types = vec![APTRepositoryPackageType::Deb];
    assert_eq!(repo.basic_check(), Err(RepoCheckIssue::MissingUri));
    repo.uris = vec!["http://ftp.debian.org/debian".to_string()];
    assert_eq!(repo.basic_check(), Err(RepoCheckIssue::MissingSuite));
    repo.suites = vec!["bookworm".to_string()];
    assert_eq!(repo.basic_check(), Err(RepoCheckIssue::MissingComponent));
    repo.components = vec!["main".to_string()];
    assert_eq!(repo.basic_check(), Ok(()));

    repo.uris = vec!["xy".to_string()];
    assert_eq!(repo.basic_check(), Err(RepoCheckIssue::InvalidUri));
    repo.uris = vec!["http://ftp.debian.org/debian".to_string()];

    repo.suites = vec!["bookworm/".to_string()];
    assert_eq!(
        repo.basic_check(),
        Err(RepoCheckIssue::AbsoluteSuiteWithComponents)
    );
    repo.components = vec![];
    assert_eq!(repo.basic_check(), Ok(()));

    repo.suites = vec!["bookworm".to_string(), "trixie".to_string()];
    repo.components = vec!["main".to_string()];
    assert_eq!(repo.basic_check(), Err(RepoCheckIssue::MoreSuitesThanListAllows));

    repo.suites = vec!["bookworm".to_string()];
    repo.types = vec![APTRepositoryPackageType::Deb, APTRepositoryPackageType::DebSrc];
    assert_eq!(
        repo.basic_check(),
        Err(RepoCheckIssue::MorePackageTypesThanListAllows)
    );
    repo.types = vec![APTRepositoryPackageType::Deb];
    repo.uris = vec![
        "http://a.example.org/debian".to_string(),
        "http://b.example.org/debian".to_string(),
    ];
    assert_eq!(repo.basic_check(), Err(RepoCheckIssue::MoreUrisThanListAllows));

    // The stanza format has no single-entry restriction.
    repo.file_type = APTRepositoryFileType::Sources;
    assert_eq!(repo.basic_check(), Ok(()));
}

#[test]
fn repository_write_one_line() {
    let mut repo = sample_list_repo();
    repo.comment = "my mirror\n".to_string();
    repo.options = vec![APTRepositoryOption {
        key: "arch".to_string(),
        values: vec!["amd64".to_string(), "i386".to_string()],
    }];
    let out = write_one_line(&repo);
    assert_eq!(
        out,
        b"#my mirror\ndeb [ arch=amd64,i386 ] http://ftp.debian.org/debian bookworm main contrib\n\n"
            .to_vec()
    );

    repo.enabled = false;
    repo.comment = String::new();
    repo.options = vec![];
    let out = write_one_line(&repo);
    assert_eq!(
        out,
        b"# deb http://ftp.debian.org/debian bookworm main contrib\n\n".to_vec()
    );
}

#[test]
fn repository_write_stanza() {
    let mut repo = sample_list_repo();
    repo.file_type = APTRepositoryFileType::Sources;
    repo.types = vec![
        APTRepositoryPackageType::Deb,
        APTRepositoryPackageType::DebSrc,
    ];
    repo.options = vec![APTRepositoryOption {
        key: "Signed-By".to_string(),
        values: vec!["/usr/share/keyrings/debian.gpg".to_string()],
    }];
    let out = write_stanza(&repo);
    assert_eq!(
        out,
        b"Types: deb deb-src\nURIs: http://ftp.debian.org/debian\nSuites: bookworm\nComponents: main contrib\nSigned-By: /usr/share/keyrings/debian.gpg\n\n"
            .to_vec()
    );
}

#[test]
fn repository_set_enabled_records_option() {
    let mut repo = APTRepository::new(APTRepositoryFileType::Sources);
    repo.set_enabled(false);
    assert!(!repo.enabled);
    assert_eq!(repo.options.len(), 1);
    assert_eq!(repo.options[0].key, "Enabled");
    assert_eq!(repo.options[0].values, vec!["false".to_string()]);

    repo.set_enabled(true);
    assert_eq!(repo.options.len(), 1);
    assert_eq!(repo.options[0].values, vec!["true".to_string()]);

    let mut list_repo = APTRepository::new(APTRepositoryFileType::List);
    list_repo.set_enabled(false);
    assert!(list_repo.options.is_empty());
}

#[test]
fn repository_hosts_and_variants() {
    let mut repo = sample_list_repo();
    assert!(repo.has_official_uri());
    repo.uris = vec!["https://user@mirror.example.org:8080/debian".to_string()];
    assert!(!repo.has_official_uri());
    repo.uris = vec!["https://user@enterprise.proxmox.com:8080/debian".to_string()];
    assert!(repo.has_official_uri());

    repo.suites = vec!["bookworm-backports".to_string()];
    assert!(repo.has_suite_variant("bookworm"));
    assert!(!repo.has_suite_variant("trixie"));

    assert!(repo.is_referenced_repository(
        APTRepositoryPackageType::Deb,
        "https://user@enterprise.proxmox.com:8080/debian",
        "main"
    ));
    assert!(!repo.is_referenced_repository(
        APTRepositoryPackageType::DebSrc,
        "https://user@enterprise.proxmox.com:8080/debian",
        "main"
    ));
}

#[test]
fn repository_type_names() {
    assert_eq!(
        APTRepositoryFileType::from_text("list"),
        Some(APTRepositoryFileType::List)
    );
    assert_eq!(APTRepositoryFileType::from_text("nope"), None);
    assert_eq!(APTRepositoryFileType::Sources.text(), "sources");
    assert_eq!(
        APTRepositoryPackageType::from_text("deb-src"),
        Some(APTRepositoryPackageType::DebSrc)
    );
    assert_eq!(APTRepositoryPackageType::Deb.text(), "deb");
}

#[test]
fn cli_argument_classification() {
    assert_eq!(next_arg(b"plain"), Arg::Positional(b"plain".to_vec()));
    assert_eq!(next_arg(b"--verbose"), Arg::Opt(b"verbose".to_vec()));
    assert_eq!(
        next_arg(b"--output=json"),
        Arg::OptArg(b"output".to_vec(), b"json".to_vec())
    );
    assert_eq!(
        next_arg(b"--eq=a=b"),
        Arg::OptArg(b"eq".to_vec(), b"a=b".to_vec())
    );
}

fn sample_method() -> Method {
    Method::new(
        ApiMethodInfo {
            name: b"status".to_vec(),
            parameters: vec![
                Parameter { name: b"node".to_vec() },
                Parameter { name: b"verbose".to_vec() },
            ],
        },
        vec![b"node".to_vec()],
    )
}

#[test]
fn cli_builders_and_lookup() {
    let m = sample_method();
    assert_eq!(m.find_parameter(b"verbose"), Some(1));
    assert_eq!(m.find_parameter(b"missing"), None);

    let app = App::new(b"ctl".to_vec());
    let app = app.subcommand(b"status".to_vec(), Command::method(
        sample_method().method,
        vec![b"node".to_vec()],
    ));
    let app = app.subcommand(b"stop".to_vec(), Command::new());
    match app.command {
        Some(Command::SubCommands(sc)) => {
            assert_eq!(sc.commands.len(), 2);
            assert!(sc.contains(b"status"));
            assert!(sc.contains(b"stop"));
            assert!(!sc.contains(b"start"));
        },
        _ => panic!("expected subcommands"),
    }

    let direct = App::new(b"one".to_vec()).method(sample_method());
    assert!(matches!(direct.command, Some(Command::Method(_))));

    let sc = SubCommands::new().subcommand(b"a".to_vec(), Command::new());
    assert_eq!(sc.commands.len(), 1);
}

#[test]
fn rate_limiter_delays() {
    let mut limiter = RateLimiter::with_start_time(1000, 100, 0);
    // The bucket starts empty (fully consumed); traffic above the bucket
    // size proposes a delay of overshoot / rate seconds.
    let delay = limiter.register_traffic(0, 50);
    assert_eq!(delay, 50_000_000);

    // After enough time the bucket refills and small traffic passes freely.
    let mut limiter = RateLimiter::new(1000, 100);
    let delay = limiter.register_traffic(1_000_000_000, 80);
    assert_eq!(delay, 0);
    assert_eq!(limiter.traffic, 80);

    // Immediately pushing far past the bucket proposes a delay again.
    let delay = limiter.register_traffic(1_000_000_000, 120);
    assert_eq!(delay, 100_000_000);
}
