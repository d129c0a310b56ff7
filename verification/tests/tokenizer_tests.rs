use a3s_apofasi::error::Error;
use a3s_apofasi::infer::tokenizer::{
    encoding_result, pick_first, resolve_from_lookups, role_spellings, HfTokenizer,
};
use a3s_apofasi::sequence::{SpecialTokens, Tokenize};
use tokenizers::Tokenizer;

fn word_level(vocab: &[(&str, u32)]) -> Tokenizer {
    let entries: Vec<String> = vocab
        .iter()
        .map(|(t, id)| format!("\"{t}\":{id}"))
        .collect();
    let json = format!(
        "{{\"version\":\"1.0\",\"truncation\":null,\"padding\":null,\"added_tokens\":[],\
         \"normalizer\":null,\"pre_tokenizer\":{{\"type\":\"WhitespaceSplit\"}},\
         \"post_processor\":null,\"decoder\":null,\
         \"model\":{{\"type\":\"WordLevel\",\"vocab\":{{{}}},\"unk_token\":\"[UNK]\"}}}}",
        entries.join(",")
    );
    Tokenizer::from_bytes(json.as_bytes()).unwrap()
}

#[test]
fn hf_tokenizer_resolves_bert_spellings() {
    let tok = word_level(&[
        ("[UNK]", 0),
        ("[CLS]", 1),
        ("[SEP]", 2),
        ("[MASK]", 3),
        ("[PAD]", 4),
        ("hello", 5),
        ("world", 6),
    ]);
    let hf = HfTokenizer::from_tokenizer(tok).unwrap();
    assert_eq!(
        hf.specials,
        SpecialTokens {
            cls: 1,
            sep: 2,
            mask: 3,
            pad: 4
        }
    );
    assert_eq!(hf.mask_token, "[MASK]");
}

#[test]
fn hf_tokenizer_resolves_sentencepiece_spellings() {
    let tok = word_level(&[
        ("[UNK]", 0),
        ("<pad>", 1),
        ("<s>", 2),
        ("</s>", 3),
        ("<mask>", 4),
    ]);
    let hf = HfTokenizer::from_tokenizer(tok).unwrap();
    assert_eq!(
        hf.specials,
        SpecialTokens {
            cls: 2,
            sep: 3,
            mask: 4,
            pad: 1
        }
    );
    assert_eq!(hf.mask_token, "<mask>");
}

#[test]
fn hf_tokenizer_prefers_first_spelling() {
    let tok = word_level(&[
        ("[UNK]", 0),
        ("<bos>", 1),
        ("<s>", 2),
        ("<eos>", 3),
        ("[MASK]", 4),
        ("<mask>", 5),
        ("<pad>", 6),
    ]);
    let hf = HfTokenizer::from_tokenizer(tok).unwrap();
    assert_eq!(hf.specials.cls, 2);
    assert_eq!(hf.specials.sep, 3);
    assert_eq!(hf.specials.mask, 4);
    assert_eq!(hf.mask_token, "[MASK]");
}

#[test]
fn hf_tokenizer_missing_mask_is_checkpoint_error() {
    let tok = word_level(&[("[UNK]", 0), ("[CLS]", 1), ("[SEP]", 2), ("[PAD]", 3)]);
    match HfTokenizer::from_tokenizer(tok) {
        Err(Error::Checkpoint(m)) => assert_eq!(m, "tokenizer missing MASK token"),
        _ => panic!("expected a checkpoint error"),
    }
}

#[test]
fn hf_tokenizer_missing_cls_reported_first() {
    let tok = word_level(&[("[UNK]", 0), ("[PAD]", 1)]);
    match HfTokenizer::from_tokenizer(tok) {
        Err(Error::Checkpoint(m)) => assert_eq!(m, "tokenizer missing CLS/BOS token"),
        _ => panic!("expected a checkpoint error"),
    }
}

#[test]
fn hf_tokenizer_encodes_without_specials() {
    let tok = word_level(&[
        ("[UNK]", 0),
        ("[CLS]", 1),
        ("[SEP]", 2),
        ("[MASK]", 3),
        ("[PAD]", 4),
        ("hello", 5),
        ("world", 6),
    ]);
    let hf = HfTokenizer::from_tokenizer(tok).unwrap();
    assert_eq!(hf.encode_ordinary("hello world").unwrap(), vec![5, 6]);
    assert_eq!(hf.encode_ordinary("hello there").unwrap(), vec![5, 0]);
}

#[test]
fn pick_first_takes_first_found() {
    assert_eq!(pick_first(&vec![None, Some(9), Some(4)]), Some((1, 9)));
    assert_eq!(pick_first(&vec![Some(0)]), Some((0, 0)));
    assert_eq!(pick_first(&vec![None, None]), None);
    assert_eq!(pick_first(&vec![]), None);
}

#[test]
fn resolve_from_lookups_builds_specials() {
    let r = resolve_from_lookups(
        &vec![None, Some(5)],
        &vec![Some(2)],
        &vec![None, Some(7)],
        &vec![Some(0)],
    )
    .unwrap();
    assert_eq!(
        r.0,
        SpecialTokens {
            cls: 5,
            sep: 2,
            mask: 7,
            pad: 0
        }
    );
    assert_eq!(r.1, "<mask>");
}

#[test]
fn resolve_from_lookups_reports_roles_in_order() {
    let none: Vec<Option<u32>> = vec![None];
    let some = vec![Some(1)];
    let msg = |r: a3s_apofasi::error::Result<(SpecialTokens, String)>| match r {
        Err(Error::Checkpoint(m)) => m,
        _ => panic!("expected a checkpoint error"),
    };
    assert_eq!(
        msg(resolve_from_lookups(&none, &none, &none, &none)),
        "tokenizer missing CLS/BOS token"
    );
    assert_eq!(
        msg(resolve_from_lookups(&some, &none, &none, &none)),
        "tokenizer missing SEP/EOS token"
    );
    assert_eq!(
        msg(resolve_from_lookups(&some, &some, &none, &none)),
        "tokenizer missing MASK token"
    );
    assert_eq!(
        msg(resolve_from_lookups(&some, &some, &some, &none)),
        "tokenizer missing PAD token"
    );
}

#[test]
fn encoding_result_wraps_tokenizer_failure() {
    assert_eq!(encoding_result(Ok(vec![3, 4])).unwrap(), vec![3, 4]);
    match encoding_result(Err("bad input".to_string())) {
        Err(Error::Infer(m)) => assert_eq!(m, "tokenize: bad input"),
        _ => panic!("expected an inference error"),
    }
}

#[test]
fn role_spellings_in_trial_order() {
    assert_eq!(role_spellings(0), vec!["[CLS]", "<s>", "<bos>"]);
    assert_eq!(role_spellings(1), vec!["[SEP]", "</s>", "<eos>"]);
    assert_eq!(role_spellings(2), vec!["[MASK]", "<mask>"]);
    assert_eq!(role_spellings(3), vec!["[PAD]", "<pad>"]);
}
