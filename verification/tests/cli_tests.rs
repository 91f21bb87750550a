use chat_relay::cli::{Cli, Commands};

#[test]
fn command_values_carry_their_fields() {
    let cli = Cli {
        command: Commands::Client {
            user: "alice".to_string(),
            connection: "127.0.0.1:9000".to_string(),
        },
    };
    match cli.command {
        Commands::Client { user, connection } => {
            assert_eq!(user, "alice");
            assert_eq!(connection, "127.0.0.1:9000");
        },
        Commands::Server { .. } => panic!("expected the client command"),
    }

    let cli = Cli { command: Commands::Server { ip: "0.0.0.0:9000".to_string() } };
    match cli.command {
        Commands::Server { ip } => assert_eq!(ip, "0.0.0.0:9000"),
        Commands::Client { .. } => panic!("expected the server command"),
    }
}
