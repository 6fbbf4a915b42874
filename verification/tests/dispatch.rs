use typstpp::chunk::{Chunk, CodeChunk, CodeOutput, OptionMap, Output, OutputType};
use typstpp::cli::{infer_preprocess_output, pad};
use typstpp::engine::{
    collect_batches, noop_outputs, outputs_from_result, reassemble, DocumentDriver, Preprocess,
};
use typstpp::haskell::{split_by_cookies, HsBackend};
use typstpp::rlang::{postprocess_output, reindent, RBackend, ROptions};
use typstpp::randgen::fresh_rng;

fn code(lang: &str, body: &str) -> Chunk {
    Chunk::Code(CodeChunk {
        lang: lang.to_string(),
        options: OptionMap::new(),
        code: body.to_string(),
    })
}

#[test]
fn batches_group_by_language_in_stable_order() {
    let doc = vec![
        code("x", "a"),
        Chunk::Verbatim("t\n".to_string()),
        code("y", "b"),
        code("x", "c"),
    ];
    let batches = collect_batches(&doc);
    assert_eq!(batches.len(), 2);
    assert_eq!(batches[0].0, "x");
    assert_eq!(batches[0].1.len(), 2);
    assert_eq!(batches[0].1[0].code, "a");
    assert_eq!(batches[0].1[1].code, "c");
    assert_eq!(batches[1].0, "y");
    assert_eq!(batches[1].1[0].code, "b");
}

#[test]
fn noop_fifo_keeps_positions() {
    // three chunks of one language interleaved with another: the echoed
    // a, b, c land at exactly the original three positions, in order
    let doc = vec![
        code("x", "a"),
        Chunk::Verbatim("first\n".to_string()),
        code("y", "other"),
        code("x", "b"),
        Chunk::Verbatim("second\n".to_string()),
        code("x", "c"),
    ];
    let batches = collect_batches(&doc);
    let mut results = Vec::new();
    for (lang, batch) in &batches {
        results.push((lang.clone(), noop_outputs(batch)));
    }
    let out = reassemble(doc, results);
    assert_eq!(out.len(), 6);
    assert_eq!(out[0], code("x", "a"));
    assert_eq!(out[1], Chunk::Verbatim("first\n".to_string()));
    assert_eq!(out[2], code("y", "other"));
    assert_eq!(out[3], code("x", "b"));
    assert_eq!(out[4], Chunk::Verbatim("second\n".to_string()));
    assert_eq!(out[5], code("x", "c"));
}

#[test]
fn errors_come_before_outputs() {
    let doc = vec![code("x", "a")];
    let results = vec![(
        "x".to_string(),
        vec![CodeOutput {
            errors: vec!["bad".to_string()],
            outputs: vec![Output {
                data: "ok".to_string(),
                ty: OutputType::Output,
            }],
        }],
    )];
    let out = reassemble(doc, results);
    assert_eq!(out.len(), 2);
    assert_eq!(out[0], Chunk::Error("bad".to_string()));
    assert_eq!(
        out[1],
        Chunk::Output(Output {
            data: "ok".to_string(),
            ty: OutputType::Output
        })
    );
}

#[test]
fn output_kinds_map_to_chunks() {
    let doc = vec![code("x", "a")];
    let results = vec![(
        "x".to_string(),
        vec![CodeOutput {
            errors: vec![],
            outputs: vec![
                Output { data: "t".to_string(), ty: OutputType::Typst },
                Output { data: "c".to_string(), ty: OutputType::Code },
                Output { data: "m".to_string(), ty: OutputType::Message },
                Output { data: "e".to_string(), ty: OutputType::Error },
            ],
        }],
    )];
    let out = reassemble(doc, results);
    assert_eq!(out[0], Chunk::Verbatim("t".to_string()));
    assert_eq!(out[1], code("x", "c"));
    assert_eq!(out[2], Chunk::Message("m".to_string()));
    assert_eq!(out[3], Chunk::Error("e".to_string()));
}

#[test]
fn missing_tail_results_become_empty() {
    // a backend that returned fewer results than chunks consumed: the tail
    // chunks get an empty substitution
    let doc = vec![code("x", "a"), code("x", "b")];
    let results = vec![(
        "x".to_string(),
        vec![CodeOutput {
            errors: vec![],
            outputs: vec![Output {
                data: "only".to_string(),
                ty: OutputType::Output,
            }],
        }],
    )];
    let out = reassemble(doc, results);
    assert_eq!(out.len(), 1);
    assert_eq!(
        out[0],
        Chunk::Output(Output {
            data: "only".to_string(),
            ty: OutputType::Output
        })
    );
}

#[test]
fn batch_result_splits_per_input() {
    let oks = outputs_from_result(Ok(vec![
        vec![Output { data: "1".to_string(), ty: OutputType::Output }],
        vec![],
    ]));
    assert_eq!(oks.len(), 2);
    assert!(oks[0].errors.is_empty());
    assert_eq!(oks[0].outputs.len(), 1);
    assert!(oks[1].outputs.is_empty());

    let errs = outputs_from_result(Err("batch failed".to_string()));
    assert_eq!(errs.len(), 1);
    assert_eq!(errs[0].errors, vec!["batch failed".to_string()]);
    assert!(errs[0].outputs.is_empty());
}

struct Upper;

impl Preprocess for Upper {
    fn preprocess(&mut self, input: &Vec<CodeChunk>) -> Vec<CodeOutput> {
        input
            .iter()
            .map(|c| CodeOutput {
                errors: vec![],
                outputs: vec![Output {
                    data: c.code.to_uppercase(),
                    ty: OutputType::Output,
                }],
            })
            .collect()
    }
}

#[test]
fn driver_dispatches_registered_language_and_echoes_the_rest() {
    let mut driver: DocumentDriver<Upper> = DocumentDriver::new();
    driver.add_backend("up".to_string(), Upper);
    let doc = vec![
        code("up", "abc"),
        Chunk::Verbatim("mid\n".to_string()),
        code("plain", "keep"),
        code("up", "xyz"),
    ];
    let out = driver.preprocess_document(doc);
    assert_eq!(out.len(), 4);
    assert_eq!(
        out[0],
        Chunk::Output(Output { data: "ABC".to_string(), ty: OutputType::Output })
    );
    assert_eq!(out[1], Chunk::Verbatim("mid\n".to_string()));
    assert_eq!(out[2], code("plain", "keep"));
    assert_eq!(
        out[3],
        Chunk::Output(Output { data: "XYZ".to_string(), ty: OutputType::Output })
    );
}

#[test]
fn reindent_prefixes_every_line() {
    assert_eq!(reindent("  x <- 1", "a\nb".to_string()), "  a\n  b\n");
    assert_eq!(reindent("", "keep".to_string()), "keep");
}

#[test]
fn r_options_from_map() {
    let kept: String = ['i', 'n', 'c', 'l', 'u', 'd', 'e'].iter().collect();
    let m = OptionMap::new()
        .insert("echo".to_string(), "false".to_string())
        .insert("eval".to_string(), "true".to_string())
        .insert(kept, "1".to_string());
    let o = ROptions::from_map(&m);
    assert_eq!(o.echo, Some(false));
    assert_eq!(o.eval, Some(true));
    assert_eq!(o.error, None);
    assert_eq!(o.incl, Some(true));
    assert_eq!(o.message, None);

    // coercion, never rejection: "1" and "yes" are truthy, anything else falsy
    let m2 = OptionMap::new()
        .insert("echo".to_string(), "maybe".to_string())
        .insert("eval".to_string(), "yes".to_string());
    let o2 = ROptions::from_map(&m2);
    assert_eq!(o2.echo, Some(false));
    assert_eq!(o2.eval, Some(true));
}

#[test]
fn knitr_header_carries_set_flags() {
    let kept: String = ['i', 'n', 'c', 'l', 'u', 'd', 'e'].iter().collect();
    let o = ROptions {
        echo: Some(true),
        eval: None,
        error: Some(false),
        incl: Some(false),
        message: None,
    };
    let h = typstpp::rlang::knitr_header("print(x)", &o);
    assert_eq!(
        h,
        format!("```{{r echo=TRUE, error=FALSE, {}=FALSE}}\nprint(x)\n```", kept)
    );
    let none = ROptions::default();
    assert_eq!(
        typstpp::rlang::knitr_header("a <- 1", &none),
        "```{r }\na <- 1\n```"
    );
}

#[test]
fn postprocess_strips_seam_and_reindents() {
    // the seam the renderer leaves between adjacent echoed blocks vanishes
    let raw = "```r\na <- 1\n```\n]\n#src[\n```r\nprint(a)\n```\n";
    let out = postprocess_output("a <- 1", raw);
    assert_eq!(out, "```r\na <- 1\nprint(a)\n```\n");
}

#[test]
fn cookies_split_batch_output() {
    let sources = vec!["s1".to_string(), "s2".to_string()];
    let cookies = vec!["CKONE".to_string(), "CKTWO".to_string()];
    let out = split_by_cookies(
        &sources,
        &vec![true, true],
        "one\nCKONEtwo\nCKTWO",
        "",
        &cookies,
    )
    .unwrap();
    assert_eq!(out.len(), 2);
    assert_eq!(
        out[0],
        vec![
            Output { data: "s1".to_string(), ty: OutputType::Code },
            Output { data: "one\n".to_string(), ty: OutputType::Output },
        ]
    );
    assert_eq!(
        out[1],
        vec![
            Output { data: "s2".to_string(), ty: OutputType::Code },
            Output { data: "two\n".to_string(), ty: OutputType::Output },
        ]
    );
}

#[test]
fn missing_cookie_fails_the_batch() {
    let sources = vec!["s1".to_string()];
    let cookies = vec!["NOPE".to_string()];
    let r = split_by_cookies(
        &sources,
        &vec![false],
        "output without marker",
        "oops",
        &cookies,
    );
    match r {
        Err(typstpp::haskell::Error::EvalError(msg)) => {
            assert_eq!(msg, "Cookie not found, stderr: oops");
        }
        other => panic!("expected an error, got {:?}", other),
    }
}

#[test]
fn stderr_is_reported_per_chunk() {
    let sources = vec!["s".to_string()];
    let cookies = vec!["CK".to_string()];
    let out = split_by_cookies(&sources, &vec![false], "xCK", "warned", &cookies).unwrap();
    assert_eq!(
        out[0],
        vec![
            Output { data: "warned".to_string(), ty: OutputType::Error },
            Output { data: "x".to_string(), ty: OutputType::Output },
        ]
    );
}

#[test]
fn cookies_are_fresh_alphanumeric_tokens() {
    let r = RBackend;
    let c = r.new_cookie();
    assert_eq!(c.len(), 10);
    assert!(c.chars().all(|ch| ch.is_ascii_alphanumeric()));
    let hs = HsBackend;
    let mut rng = fresh_rng();
    let c2 = hs.new_cookie(&mut rng);
    assert_eq!(c2.len(), 16);
    assert!(c2.chars().all(|ch| ch.is_ascii_alphanumeric()));
}

#[test]
fn pad_fills_the_verb_column() {
    assert_eq!(pad("Compiling"), "Compiling      ");
    assert_eq!(pad("A very long verb name"), "A very long verb name");
}

#[test]
fn inferred_output_name() {
    assert_eq!(infer_preprocess_output("doc.typ"), "doc.out.typ");
    assert_eq!(infer_preprocess_output("dir/doc.typ"), "doc.out.typ");
    assert_eq!(infer_preprocess_output("noext"), "noext.out.typ");
    assert_eq!(infer_preprocess_output("a.b.typ"), "a.b.out.typ");
}

#[test]
fn ghc_expression_list() {
    let batch = vec![
        CodeChunk {
            lang: "hs".to_string(),
            options: OptionMap::new(),
            code: "a\nb".to_string(),
        },
        CodeChunk {
            lang: "hs".to_string(),
            options: OptionMap::new().insert("eval".to_string(), "false".to_string()),
            code: "skip".to_string(),
        },
    ];
    let cookies = vec!["C1".to_string(), "C2".to_string()];
    let exprs = typstpp::haskell::hs_expressions(&batch, &cookies);
    assert_eq!(
        exprs,
        vec![
            "a".to_string(),
            "b".to_string(),
            "putStrLn \"C1\"".to_string(),
            "putStrLn \"C2\"".to_string(),
        ]
    );
}

struct FakeBackend {
    fail: bool,
}

impl typstpp::engine::Backend for FakeBackend {
    type GlobalOptions = ();
    type Options = ();
    type Error = String;

    fn new(_g: ()) -> Result<Self, typstpp::engine::Error<String>> {
        Ok(FakeBackend { fail: false })
    }

    fn compile(
        &mut self,
        input: Vec<typstpp::chunk::Input<()>>,
    ) -> Result<Vec<Vec<Output>>, typstpp::engine::Error<String>> {
        if self.fail {
            Err(typstpp::engine::Error::BackendError("kaput".to_string()))
        } else {
            Ok(input
                .iter()
                .map(|i| {
                    vec![Output {
                        data: i.source.clone(),
                        ty: OutputType::Output,
                    }]
                })
                .collect())
        }
    }

    fn reset(&mut self) -> Result<(), typstpp::engine::Error<String>> {
        Ok(())
    }

    fn close(self) -> Result<(), typstpp::engine::Error<String>> {
        Ok(())
    }

    fn options_from(_m: &OptionMap) -> () {}

    fn describe_error(e: &String) -> String {
        e.clone()
    }
}

#[test]
fn language_driver_maps_batch_results() {
    let batch = vec![CodeChunk {
        lang: "f".to_string(),
        options: OptionMap::new(),
        code: "one".to_string(),
    }];
    let mut ok = typstpp::engine::LanguageDriver::new(FakeBackend { fail: false });
    let outs = ok.preprocess(&batch);
    assert_eq!(outs.len(), 1);
    assert!(outs[0].errors.is_empty());
    assert_eq!(outs[0].outputs[0].data, "one");

    // a batch-level failure becomes one error-bearing result for the group
    let mut bad = typstpp::engine::LanguageDriver::new(FakeBackend { fail: true });
    let outs = bad.preprocess(&batch);
    assert_eq!(outs.len(), 1);
    assert_eq!(outs[0].errors, vec!["kaput".to_string()]);
    assert!(outs[0].outputs.is_empty());
}
