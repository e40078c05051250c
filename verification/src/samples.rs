//! Sample sentences of four subject areas, for trying the library out.

use vstd::prelude::*;
use crate::text::string_views;

verus! {

/// The sample sentences: eight each on language processing, machine
/// learning, food and weather, in that order.
pub open spec fn sample_sentences() -> Seq<Seq<char>> {
    seq![
        "RAG stands for Retrieval-Augmented Generation."@,
        "Retrieval is a crucial aspect of modern NLP systems."@,
        "Generating text with correct facts is challenging."@,
        "Large language models can generate coherent text."@,
        "GPT models have billions of parameters."@,
        "Natural Language Processing enables computers to understand human language."@,
        "Word embeddings capture semantic relationships between words."@,
        "Transformer architectures revolutionized NLP research."@,
        "Machine learning benefits from large datasets."@,
        "Supervised learning requires labeled data."@,
        "Reinforcement learning is inspired by behavioral psychology."@,
        "Neural networks can learn complex functions."@,
        "Overfitting is a common problem in ML."@,
        "Unsupervised learning uncovers hidden patterns in data."@,
        "Feature engineering is critical for model performance."@,
        "Cross-validation helps in assessing model generalization."@,
        "Bananas are commonly used in smoothies."@,
        "Oranges are rich in vitamin C."@,
        "Pizza is a popular Italian dish."@,
        "Cooking pasta requires boiling water."@,
        "Chocolate can be sweet or bitter."@,
        "Fresh salads are a healthy and refreshing meal."@,
        "Sushi combines rice, fish, and seaweed in a delicate balance."@,
        "Spices can transform simple ingredients into gourmet dishes."@,
        "It often rains in the Amazon rainforest."@,
        "Summers can be very hot in the desert."@,
        "Hurricanes form over warm ocean waters."@,
        "Snowstorms can disrupt transportation."@,
        "A sunny day can lift people's mood."@,
        "Foggy mornings are common in coastal regions."@,
        "Winter brings frosty nights and chilly winds."@,
        "Thunderstorms can produce lightning and heavy rain."@,
    ]
}

/// The category of the sample sentence at position `i`.
pub open spec fn sample_category(i: int) -> Seq<char> {
    if i < 8 {
        "NLP"@
    } else if i < 16 {
        "ML"@
    } else if i < 24 {
        "Food"@
    } else {
        "Weather"@
    }
}

/// The sample sentences and, at the same positions, their categories.
pub fn get_sentences_and_categories() -> (r: (Vec<String>, Vec<String>))
    ensures
        string_views(r.0@) == sample_sentences(),
        r.1.len() == 32,
        forall|i: int| 0 <= i < 32 ==> r.1@[i]@ == sample_category(i),
{
    let mut sentences: Vec<String> = Vec::new();
    sentences.push("RAG stands for Retrieval-Augmented Generation.".to_owned());
    sentences.push("Retrieval is a crucial aspect of modern NLP systems.".to_owned());
    sentences.push("Generating text with correct facts is challenging.".to_owned());
    sentences.push("Large language models can generate coherent text.".to_owned());
    sentences.push("GPT models have billions of parameters.".to_owned());
    sentences.push("Natural Language Processing enables computers to understand human language.".to_owned());
    sentences.push("Word embeddings capture semantic relationships between words.".to_owned());
    sentences.push("Transformer architectures revolutionized NLP research.".to_owned());
    sentences.push("Machine learning benefits from large datasets.".to_owned());
    sentences.push("Supervised learning requires labeled data.".to_owned());
    sentences.push("Reinforcement learning is inspired by behavioral psychology.".to_owned());
    sentences.push("Neural networks can learn complex functions.".to_owned());
    sentences.push("Overfitting is a common problem in ML.".to_owned());
    sentences.push("Unsupervised learning uncovers hidden patterns in data.".to_owned());
    sentences.push("Feature engineering is critical for model performance.".to_owned());
    sentences.push("Cross-validation helps in assessing model generalization.".to_owned());
    sentences.push("Bananas are commonly used in smoothies.".to_owned());
    sentences.push("Oranges are rich in vitamin C.".to_owned());
    sentences.push("Pizza is a popular Italian dish.".to_owned());
    sentences.push("Cooking pasta requires boiling water.".to_owned());
    sentences.push("Chocolate can be sweet or bitter.".to_owned());
    sentences.push("Fresh salads are a healthy and refreshing meal.".to_owned());
    sentences.push("Sushi combines rice, fish, and seaweed in a delicate balance.".to_owned());
    sentences.push("Spices can transform simple ingredients into gourmet dishes.".to_owned());
    sentences.push("It often rains in the Amazon rainforest.".to_owned());
    sentences.push("Summers can be very hot in the desert.".to_owned());
    sentences.push("Hurricanes form over warm ocean waters.".to_owned());
    sentences.push("Snowstorms can disrupt transportation.".to_owned());
    sentences.push("A sunny day can lift people's mood.".to_owned());
    sentences.push("Foggy mornings are common in coastal regions.".to_owned());
    sentences.push("Winter brings frosty nights and chilly winds.".to_owned());
    sentences.push("Thunderstorms can produce lightning and heavy rain.".to_owned());
    assert(string_views(sentences@) =~= sample_sentences());
    let mut categories: Vec<String> = Vec::new();
    let mut i: usize = 0;
    while i < 32
        invariant
            i <= 32,
            categories.len() == i,
            forall|j: int| 0 <= j < i ==> categories@[j]@ == sample_category(j),
        decreases 32 - i,
    {
        let name = if i < 8 {
            "NLP"
        } else if i < 16 {
            "ML"
        } else if i < 24 {
            "Food"
        } else {
            "Weather"
        };
        categories.push(name.to_owned());
        i += 1;
    }
    (sentences, categories)
}

} // verus!
