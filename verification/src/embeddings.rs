//! What is decided around a run of the embedding model: whether a
//! configuration can be used, which model it names, how the texts are
//! batched, and whether the vectors that came back have the declared length.
//! Running the model is not done here.

use vstd::prelude::*;
use vstd::string::StringExecFns;
use crate::error::VPackError;

verus! {

/// The configuration of an embedding run.
#[derive(Debug)]
pub struct FastembedConfig {
    /// The identifier of the model.
    pub model: String,
    /// The length that the vectors must have, where it is declared.
    pub dimensions: Option<usize>,
    /// The backend; where set it must be `fastembed`.
    pub provider: Option<String>,
    /// How many texts go to the model at once: 64 where not set, 1 where 0.
    pub batch_size: Option<usize>,
    /// The most tokens of a text that the model reads.
    pub max_length: Option<usize>,
}

/// The models that can be run.
#[derive(Debug, Clone, Copy, PartialEq, Eq, Structural)]
pub enum SupportedModel {
    AllMiniLML6V2,
    AllMiniLML12V2,
    AllMpnetBaseV2,
    BGESmallENV15,
    BGEBaseENV15,
    BGELargeENV15,
    BGESmallZHV15,
    BGELargeZHV15,
    BGEM3,
}

/// The batch size where the configuration sets none.
pub const DEFAULT_BATCH_SIZE: usize = 64;

/// The model that an identifier names.
pub open spec fn model_named(id: Seq<char>) -> Option<SupportedModel> {
    if id == "sentence-transformers/all-MiniLM-L6-v2"@ {
        Some(SupportedModel::AllMiniLML6V2)
    } else if id == "sentence-transformers/all-MiniLM-L12-v2"@ {
        Some(SupportedModel::AllMiniLML12V2)
    } else if id == "sentence-transformers/all-mpnet-base-v2"@ {
        Some(SupportedModel::AllMpnetBaseV2)
    } else if id == "BAAI/bge-small-en-v1.5"@ {
        Some(SupportedModel::BGESmallENV15)
    } else if id == "BAAI/bge-base-en-v1.5"@ {
        Some(SupportedModel::BGEBaseENV15)
    } else if id == "BAAI/bge-large-en-v1.5"@ {
        Some(SupportedModel::BGELargeENV15)
    } else if id == "BAAI/bge-small-zh-v1.5"@ {
        Some(SupportedModel::BGESmallZHV15)
    } else if id == "BAAI/bge-large-zh-v1.5"@ {
        Some(SupportedModel::BGELargeZHV15)
    } else if id == "BAAI/bge-m3"@ {
        Some(SupportedModel::BGEM3)
    } else {
        None
    }
}

/// Whether `text` is the text `literal`.
fn is_text(text: &String, literal: &str) -> (r: bool)
    ensures
        r == (text@ == literal@),
{
    *text == String::from_str(literal)
}

/// The model that an identifier names, or `UnknownModel` where it names
/// none.
pub fn resolve_model(model_id: &str) -> (result: Result<SupportedModel, VPackError>)
    ensures
        match model_named(model_id@) {
            Some(model) => result matches Ok(found) && found == model,
            None => result matches Err(VPackError::UnknownModel(detail)) && detail@
                == "Unknown fastembed model '"@ + model_id@ + "'"@,
        },
{
    let id = String::from_str(model_id);
    if is_text(&id, "sentence-transformers/all-MiniLM-L6-v2") {
        Ok(SupportedModel::AllMiniLML6V2)
    } else if is_text(&id, "sentence-transformers/all-MiniLM-L12-v2") {
        Ok(SupportedModel::AllMiniLML12V2)
    } else if is_text(&id, "sentence-transformers/all-mpnet-base-v2") {
        Ok(SupportedModel::AllMpnetBaseV2)
    } else if is_text(&id, "BAAI/bge-small-en-v1.5") {
        Ok(SupportedModel::BGESmallENV15)
    } else if is_text(&id, "BAAI/bge-base-en-v1.5") {
        Ok(SupportedModel::BGEBaseENV15)
    } else if is_text(&id, "BAAI/bge-large-en-v1.5") {
        Ok(SupportedModel::BGELargeENV15)
    } else if is_text(&id, "BAAI/bge-small-zh-v1.5") {
        Ok(SupportedModel::BGESmallZHV15)
    } else if is_text(&id, "BAAI/bge-large-zh-v1.5") {
        Ok(SupportedModel::BGELargeZHV15)
    } else if is_text(&id, "BAAI/bge-m3") {
        Ok(SupportedModel::BGEM3)
    } else {
        Err(
            VPackError::UnknownModel(
                String::from_str("Unknown fastembed model '").concat(model_id).concat("'"),
            ),
        )
    }
}

/// What a run is to do: which model, how many texts at once, how long a
/// text may be.
#[derive(Debug)]
pub struct EmbedPlan {
    pub model: SupportedModel,
    pub batch_size: usize,
    pub max_length: Option<usize>,
}

/// The half-open range of the texts that batch `k` holds.
pub open spec fn batch_range(count: nat, batch_size: nat, k: nat) -> (nat, nat) {
    (
        k * batch_size,
        if (k + 1) * batch_size < count {
            (k + 1) * batch_size
        } else {
            count
        },
    )
}

/// How many batches `count` texts make: each batch but the last is full.
pub open spec fn batch_count(count: nat, batch_size: nat) -> nat {
    if batch_size == 0 {
        0
    } else {
        ((count + batch_size - 1) / batch_size as int) as nat
    }
}

impl FastembedConfig {
    /// The provider that the configuration may name.
    pub open spec fn provider_accepted(self) -> bool {
        match self.provider {
            Some(provider) => provider@ == "fastembed"@,
            None => true,
        }
    }

    /// How many texts go to the model at once.
    pub open spec fn batch_size_used(self) -> usize {
        match self.batch_size {
            Some(size) => if size == 0 {
                1
            } else {
                size
            },
            None => DEFAULT_BATCH_SIZE,
        }
    }

    /// Fails with `UnknownModel` where the configuration names another
    /// provider than `fastembed`.
    pub fn check_provider(&self) -> (result: Result<(), VPackError>)
        ensures
            self.provider_accepted() ==> result is Ok,
            !self.provider_accepted() ==> (result matches Err(VPackError::UnknownModel(detail))
                && detail@ == "Embedding provider '"@ + self.provider->0@
                + "' is not supported by fastembed"@),
    {
        match &self.provider {
            Some(provider) => if is_text(provider, "fastembed") {
                Ok(())
            } else {
                Err(
                    VPackError::UnknownModel(
                        String::from_str("Embedding provider '").concat(provider.as_str()).concat(
                            "' is not supported by fastembed",
                        ),
                    ),
                )
            },
            None => Ok(()),
        }
    }

    /// How many texts go to the model at once: at least one.
    pub fn effective_batch_size(&self) -> (size: usize)
        ensures
            size == self.batch_size_used(),
            size >= 1,
    {
        match self.batch_size {
            Some(size) => if size == 0 {
                1
            } else {
                size
            },
            None => DEFAULT_BATCH_SIZE,
        }
    }

    /// What a run with this configuration is to do.  Fails with
    /// `UnknownModel` where the provider is not accepted, else where the
    /// model is not known.
    pub fn plan(&self) -> (result: Result<EmbedPlan, VPackError>)
        ensures
            self.provider_accepted() && model_named(self.model@) is Some ==> (result matches Ok(
                plan,
            ) && plan.model == model_named(self.model@)->0 && plan.batch_size
                == self.batch_size_used() && plan.max_length == self.max_length),
            !self.provider_accepted() ==> (result matches Err(VPackError::UnknownModel(detail))
                && detail@ == "Embedding provider '"@ + self.provider->0@
                + "' is not supported by fastembed"@),
            self.provider_accepted() && model_named(self.model@) is None ==> (result matches Err(
                VPackError::UnknownModel(detail),
            ) && detail@ == "Unknown fastembed model '"@ + self.model@ + "'"@),
    {
        match self.check_provider() {
            Ok(()) => {},
            Err(failure) => {
                return Err(failure);
            },
        }
        let model = match resolve_model(self.model.as_str()) {
            Ok(model) => model,
            Err(failure) => {
                return Err(failure);
            },
        };
        Ok(EmbedPlan { model, batch_size: self.effective_batch_size(), max_length: self.max_length })
    }

    /// Holds the vectors that came back against the declared dimensions:
    /// `first_length` is the length of the first vector, where there is one.
    /// Fails with `DimensionMismatch` where dimensions are declared and the
    /// first vector has another length.
    pub fn check_dimensions(&self, first_length: Option<usize>) -> (result: Result<(), VPackError>)
        ensures
            match (self.dimensions, first_length) {
                (Some(declared), Some(length)) if declared != length => result matches Err(
                    VPackError::DimensionMismatch { expected, got },
                ) && expected == declared && got == length,
                _ => result is Ok,
            },
    {
        match (self.dimensions, first_length) {
            (Some(declared), Some(length)) => if declared != length {
                Err(VPackError::DimensionMismatch { expected: declared, got: length })
            } else {
                Ok(())
            },
            _ => Ok(()),
        }
    }
}

/// The batches of `count` texts, each as the half-open range of the texts
/// that it holds: in order, without gaps, each but the last `batch_size`
/// long.
pub fn batch_ranges(count: usize, batch_size: usize) -> (ranges: Vec<(usize, usize)>)
    requires
        batch_size >= 1,
    ensures
        ranges@.len() == batch_count(count as nat, batch_size as nat),
        forall|k: int|
            0 <= k < ranges@.len() ==> (#[trigger] ranges@[k].0) as nat == batch_range(
                count as nat,
                batch_size as nat,
                k as nat,
            ).0 && ranges@[k].1 as nat == batch_range(count as nat, batch_size as nat, k as nat).1,
{
    let mut ranges: Vec<(usize, usize)> = Vec::new();
    let mut start: usize = 0;
    proof {
        if count == 0 {
            vstd::arithmetic::div_mod::lemma_small_div_converse(
                batch_size - 1,
                batch_size as int,
            );
            assert((batch_size - 1) / (batch_size as int) == 0) by (nonlinear_arith)
                requires
                    batch_size >= 1,
            ;
        }
        assert(0 * batch_size == 0) by (nonlinear_arith);
    }
    while start < count
        invariant
            batch_size >= 1,
            start <= count,
            start < count ==> start == ranges@.len() * batch_size,
            start == count ==> ranges@.len() == batch_count(count as nat, batch_size as nat),
            forall|k: int|
                0 <= k < ranges@.len() ==> (#[trigger] ranges@[k].0) as nat == batch_range(
                    count as nat,
                    batch_size as nat,
                    k as nat,
                ).0 && ranges@[k].1 as nat == batch_range(
                    count as nat,
                    batch_size as nat,
                    k as nat,
                ).1,
        decreases count - start,
    {
        let end = if count - start > batch_size {
            start + batch_size
        } else {
            count
        };
        proof {
            let k = ranges@.len() as int;
            lemma_batch_step(count as int, batch_size as int, k);
            assert((k + 1) * batch_size == k * batch_size + batch_size) by (nonlinear_arith);
        }
        ranges.push((start, end));
        start = end;
    }
    ranges
}

/// After `k` full batches that left texts over, the batches are more than
/// `k`; they are `k + 1` where the next batch takes the rest.
proof fn lemma_batch_step(count: int, batch_size: int, k: int)
    requires
        batch_size >= 1,
        k >= 0,
        k * batch_size < count,
    ensures
        k < (count + batch_size - 1) / batch_size,
        count <= (k + 1) * batch_size ==> (count + batch_size - 1) / batch_size == k + 1,
{
    let total = count + batch_size - 1;
    vstd::arithmetic::div_mod::lemma_fundamental_div_mod(total, batch_size);
    vstd::arithmetic::div_mod::lemma_mod_bound(total, batch_size);
    let q = total / batch_size;
    assert(total == batch_size * q + total % batch_size);
    assert(k < q) by (nonlinear_arith)
        requires
            total == batch_size * q + total % batch_size,
            0 <= total % batch_size < batch_size,
            k * batch_size < count,
            total == count + batch_size - 1,
            batch_size >= 1,
    ;
    if count <= (k + 1) * batch_size {
        assert(q <= k + 1) by (nonlinear_arith)
            requires
                total == batch_size * q + total % batch_size,
                0 <= total % batch_size < batch_size,
                count <= (k + 1) * batch_size,
                total == count + batch_size - 1,
                batch_size >= 1,
        ;
    }
}

} // verus!
