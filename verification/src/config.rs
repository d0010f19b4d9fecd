//! The program configuration: which command lists a file for display, and
//! with which arguments.

use vstd::prelude::*;

use crate::configparser::{lookup_value, ConfigError, ConfigParser};
use crate::strutil::{runs, space_sep};

verus! {

/// The configuration, with a default for every setting.
#[derive(Debug)]
pub struct Config {
    /// The command used to display a file.
    pub ls_command: String,
    /// The arguments handed to that command before the file name.
    pub ls_args: Vec<String>,
}

impl Default for Config {
    /// The built-in defaults: `ls -hl`.
    fn default() -> (r: Config)
        ensures
            r.ls_command@ == "ls"@,
            r.ls_args.deep_view() =~= seq!["-hl"@],
    {
        let mut ls_args: Vec<String> = Vec::new();
        ls_args.push(String::from_str("-hl"));
        proof {
            assert(ls_args.deep_view() =~= seq!["-hl"@]);
        }
        Config { ls_command: String::from_str("ls"), ls_args }
    }
}

impl Config {
    /// Hands the configuration back unchanged if it is usable, and rejects
    /// an empty listing command.
    pub fn sanity_checked(self) -> (r: Result<Config, ConfigError>)
        ensures
            self.ls_command@.len() == 0 ==> r == Err::<Config, ConfigError>(
                ConfigError::MissingValue,
            ),
            self.ls_command@.len() != 0 ==> r == Ok::<Config, ConfigError>(self),
    {
        if self.ls_command.as_str().unicode_len() == 0 {
            Err(ConfigError::MissingValue)
        } else {
            Ok(self)
        }
    }

    /// Overwrites every setting for which the parsed configuration binds a
    /// value, and sanity-checks the result.
    pub fn fill_from_parser(self, parser: &ConfigParser) -> (r: Result<Config, ConfigError>)
        requires
            parser.wf(),
        ensures
            ({
                let cmd = match lookup_value(parser.spec_keys(), parser.spec_values(), "LsCommand"@) {
                    Some(v) => v,
                    None => self.ls_command@,
                };
                let args = match lookup_value(parser.spec_keys(), parser.spec_values(), "LsArgs"@) {
                    Some(v) => runs(v, space_sep()),
                    None => self.ls_args.deep_view(),
                };
                if cmd.len() == 0 {
                    r == Err::<Config, ConfigError>(ConfigError::MissingValue)
                } else {
                    match r {
                        Ok(c) => c.ls_command@ == cmd && c.ls_args.deep_view() == args,
                        Err(_) => false,
                    }
                }
            }),
    {
        let mut c = self;
        parser.get_value_into("LsCommand", &mut c.ls_command);
        parser.get_values_into("LsArgs", &mut c.ls_args);
        c.sanity_checked()
    }
}

} // verus!
