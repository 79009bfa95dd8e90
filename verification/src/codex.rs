//! What the discovery of a repository's tooling is asked and told.

use vstd::prelude::*;
use vstd::string::StringExecFns;
use crate::text::{strip, texts, trim, CharClass};

verus! {

/// What the discovery is asked.
pub const PROMPT_TEXT: &'static str = "You are inspecting a git repository so that several working copies of it can run side by side.
Read the files of the repository; do not change any of them and do not run its services.

Find out:
- which package manager installs the dependencies, and with which command;
- which services a developer starts, with which command, on which port, and through which
  environment variables a port or a URL is handed to them;
- whether the repository uses a database, of which kind, and with which commands it is
  migrated, seeded and reset;
- whether the repository uses Supabase, where its configuration lies, how it is started,
  and which ports it declares.

Answer with one JSON object that follows the output schema, with \"version\" 1 and
\"port_block_size\" 100. Give every command as a list of words, the program first.
Where you do not know a value, use null. Do not omit any field, and do not guess.
";

/// The shape of the answer, as a JSON schema. Every object lists each of its
/// properties as required; what is unknown is given as null.
pub const SCHEMA_TEXT: &'static str = "{
  \"type\": \"object\",
  \"additionalProperties\": false,
  \"properties\": {
    \"version\": {
      \"type\": \"integer\"
    },
    \"port_block_size\": {
      \"type\": \"integer\"
    },
    \"package_manager\": {
      \"type\": \"object\",
      \"additionalProperties\": false,
      \"properties\": {
        \"name\": {
          \"type\": \"string\"
        },
        \"install_command\": {
          \"type\": \"array\",
          \"items\": {
            \"type\": \"string\"
          }
        },
        \"notes\": {
          \"type\": [
            \"string\",
            \"null\"
          ]
        }
      },
      \"required\": [
        \"name\",
        \"install_command\",
        \"notes\"
      ]
    },
    \"services\": {
      \"type\": \"array\",
      \"items\": {
        \"type\": \"object\",
        \"additionalProperties\": false,
        \"properties\": {
          \"name\": {
            \"type\": \"string\"
          },
          \"kind\": {
            \"type\": [
              \"string\",
              \"null\"
            ]
          },
          \"dev_command\": {
            \"type\": \"array\",
            \"items\": {
              \"type\": \"string\"
            }
          },
          \"base_port\": {
            \"type\": [
              \"integer\",
              \"null\"
            ]
          },
          \"port_env\": {
            \"type\": [
              \"string\",
              \"null\"
            ]
          },
          \"url_env\": {
            \"type\": [
              \"string\",
              \"null\"
            ]
          },
          \"notes\": {
            \"type\": [
              \"string\",
              \"null\"
            ]
          }
        },
        \"required\": [
          \"name\",
          \"kind\",
          \"dev_command\",
          \"base_port\",
          \"port_env\",
          \"url_env\",
          \"notes\"
        ]
      }
    },
    \"database\": {
      \"type\": \"object\",
      \"additionalProperties\": false,
      \"properties\": {
        \"detected\": {
          \"type\": \"boolean\"
        },
        \"kind\": {
          \"type\": [
            \"string\",
            \"null\"
          ]
        },
        \"migrate_command\": {
          \"type\": [
            \"array\",
            \"null\"
          ],
          \"items\": {
            \"type\": \"string\"
          }
        },
        \"seed_command\": {
          \"type\": [
            \"array\",
            \"null\"
          ],
          \"items\": {
            \"type\": \"string\"
          }
        },
        \"reset_command\": {
          \"type\": [
            \"array\",
            \"null\"
          ],
          \"items\": {
            \"type\": \"string\"
          }
        },
        \"notes\": {
          \"type\": [
            \"string\",
            \"null\"
          ]
        }
      },
      \"required\": [
        \"detected\",
        \"kind\",
        \"migrate_command\",
        \"seed_command\",
        \"reset_command\",
        \"notes\"
      ]
    },
    \"supabase\": {
      \"type\": \"object\",
      \"additionalProperties\": false,
      \"properties\": {
        \"detected\": {
          \"type\": \"boolean\"
        },
        \"config_path\": {
          \"type\": [
            \"string\",
            \"null\"
          ]
        },
        \"start_command\": {
          \"type\": [
            \"array\",
            \"null\"
          ],
          \"items\": {
            \"type\": \"string\"
          }
        },
        \"base_ports\": {
          \"type\": [
            \"object\",
            \"null\"
          ],
          \"additionalProperties\": false,
          \"properties\": {
            \"api\": {
              \"type\": [
                \"integer\",
                \"null\"
              ]
            },
            \"db\": {
              \"type\": [
                \"integer\",
                \"null\"
              ]
            },
            \"shadow_db\": {
              \"type\": [
                \"integer\",
                \"null\"
              ]
            },
            \"studio\": {
              \"type\": [
                \"integer\",
                \"null\"
              ]
            },
            \"inbucket\": {
              \"type\": [
                \"integer\",
                \"null\"
              ]
            }
          },
          \"required\": [
            \"api\",
            \"db\",
            \"shadow_db\",
            \"studio\",
            \"inbucket\"
          ]
        },
        \"notes\": {
          \"type\": [
            \"string\",
            \"null\"
          ]
        }
      },
      \"required\": [
        \"detected\",
        \"config_path\",
        \"start_command\",
        \"base_ports\",
        \"notes\"
      ]
    },
    \"notes\": {
      \"type\": [
        \"string\",
        \"null\"
      ]
    }
  },
  \"required\": [
    \"version\",
    \"port_block_size\",
    \"package_manager\",
    \"services\",
    \"database\",
    \"supabase\",
    \"notes\"
  ]
}
";

/// The model that was asked for, if any: its name without the white space around it,
/// unless nothing is left of it.
pub open spec fn model_spec(model: Option<&str>) -> Option<Seq<char>> {
    match model {
        Some(m) => if strip(m@, CharClass::Space).len() > 0 {
            Some(strip(m@, CharClass::Space))
        } else {
            None
        },
        None => None,
    }
}

/// The arguments for the discovery: the prompt, where the schema lies, where the answer
/// is to go, and the model if one was asked for.
pub open spec fn discover_args_spec(
    schema_path: Seq<char>,
    out_path: Seq<char>,
    model: Option<&str>,
) -> Seq<Seq<char>> {
    let fixed = seq!["exec"@, PROMPT_TEXT@, "--output-schema"@, schema_path, "-o"@, out_path];
    match model_spec(model) {
        Some(m) => fixed + seq!["--model"@, m],
        None => fixed,
    }
}

/// The arguments with which the discovery is run.
pub fn discover_args(schema_path: &str, out_path: &str, model: Option<&str>) -> (r: Vec<String>)
    ensures
        texts(r@) == discover_args_spec(schema_path@, out_path@, model),
{
    let mut args: Vec<String> = Vec::new();
    args.push(String::from_str("exec"));
    args.push(String::from_str(PROMPT_TEXT));
    args.push(String::from_str("--output-schema"));
    args.push(String::from_str(schema_path));
    args.push(String::from_str("-o"));
    args.push(String::from_str(out_path));
    assert(texts(args@) =~= seq![
        "exec"@,
        PROMPT_TEXT@,
        "--output-schema"@,
        schema_path@,
        "-o"@,
        out_path@,
    ]);
    match model {
        Some(m) => {
            let t = trim(m);
            if !t.as_str().is_empty() {
                let ghost fixed = texts(args@);
                args.push(String::from_str("--model"));
                args.push(t);
                assert(texts(args@) =~= fixed + seq!["--model"@, t@]);
            }
        },
        None => {},
    }
    args
}

} // verus!
