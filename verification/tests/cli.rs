use clap::{Arg, ArgAction, Command};

use glaza::show_repo::CurrentRepo;

fn show_arg() -> Arg {
    Arg::new("show").required(true)
}

fn web_arg() -> Arg {
    Arg::new("web").short('w').long("web").action(ArgAction::SetTrue)
}

fn episode_arg() -> Arg {
    Arg::new("episode")
        .required(true)
        .value_parser(clap::builder::RangedU64ValueParser::<u32>::new())
}

fn link_arg() -> Arg {
    Arg::new("link").required(true)
}

fn cli() -> Command {
    Command::new("glaza")
        .arg(
            Arg::new("git")
                .short('g')
                .long("git")
                .action(ArgAction::SetTrue),
        )
        .subcommand_required(true)
        .subcommand(
            Command::new("shows").visible_alias("s").arg(
                Arg::new("links")
                    .short('l')
                    .long("links")
                    .action(ArgAction::SetTrue),
            ),
        )
        .subcommand(
            Command::new("watch")
                .visible_aliases(["next", "go", "w"])
                .arg(show_arg())
                .arg(web_arg()),
        )
        .subcommand(
            Command::new("save")
                .visible_aliases(["install", "i"])
                .arg(show_arg())
                .arg(web_arg()),
        )
        .subcommand(
            Command::new("plink")
                .visible_alias("h")
                .arg(show_arg())
                .arg(web_arg()),
        )
        .subcommand(Command::new("pdlink").arg(show_arg()).arg(web_arg()))
        .subcommand(
            Command::new("episode")
                .visible_alias("ep")
                .arg(show_arg())
                .arg(episode_arg()),
        )
        .subcommand(
            Command::new("download")
                .visible_alias("dn")
                .arg(show_arg())
                .arg(episode_arg()),
        )
        .subcommand(
            Command::new("link")
                .visible_alias("ln")
                .arg(show_arg())
                .arg(link_arg()),
        )
        .subcommand(Command::new("dlink").arg(show_arg()).arg(link_arg()))
        .subcommand(
            Command::new("start")
                .visible_aliases(["new", "n"])
                .arg(show_arg())
                .arg(Arg::new("link").short('l').long("link"))
                .arg(Arg::new("dlink").short('d').long("dlink"))
                .arg(
                    Arg::new("grab")
                        .short('g')
                        .long("grab")
                        .action(ArgAction::SetTrue),
                ),
        )
        .subcommand(
            Command::new("finish")
                .visible_alias("f")
                .arg(show_arg())
                .arg(
                    Arg::new("grab")
                        .short('g')
                        .long("grab")
                        .action(ArgAction::SetTrue),
                )
                .arg(
                    Arg::new("fresh")
                        .short('f')
                        .long("fresh")
                        .action(ArgAction::SetTrue),
                ),
        )
        .subcommand(
            Command::new("drop")
                .visible_alias("d")
                .arg(show_arg())
                .arg(
                    Arg::new("grab")
                        .short('g')
                        .long("grab")
                        .action(ArgAction::SetTrue),
                )
                .arg(
                    Arg::new("fresh")
                        .short('f')
                        .long("fresh")
                        .action(ArgAction::SetTrue),
                ),
        )
        .subcommand(
            Command::new("remove")
                .visible_aliases(["rm", "delete"])
                .arg(show_arg()),
        )
        .subcommand(
            Command::new("add")
                .visible_aliases(["later", "a"])
                .arg(show_arg()),
        )
        .subcommand(Command::new("discard").visible_alias("c").arg(show_arg()))
        .subcommand(Command::new("wl"))
        .subcommand(Command::new("watched").visible_alias("past"))
}

#[test]
fn verify_cli() {
    cli().debug_assert()
}

#[test]
fn cli_arguments_reach_the_library() {
    // The values clap hands over are plain strings and integers the library
    // takes as-is.
    let matches = cli()
        .try_get_matches_from(["glaza", "episode", "My Show", "5"])
        .unwrap();
    let (name, sub) = matches.subcommand().unwrap();
    assert_eq!(name, "episode");
    let show: &String = sub.get_one("show").unwrap();
    let episode: u32 = *sub.get_one("episode").unwrap();
    let mut repo = CurrentRepo::empty();
    repo.new_show(show, None, None);
    let msg = glaza::commands::show_set_episode(show, episode, &mut repo, true).unwrap();
    assert_eq!(msg.unwrap(), "watch ep5 -> My Show");
}
